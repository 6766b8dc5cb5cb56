//! The bootstrap bump allocator: a monotonic, non-freeing allocator over
//! the firmware region list, used only to hand out the minimum bootstrap
//! memory (initial page tables, the buddy allocator's control structures)
//! before a real allocator exists. Its cursor is an offset consumed from
//! the start of the concatenated region list; a successor allocator reads
//! `areas` and `offset` to account for exactly what was consumed.

use vstd::prelude::*;

use crate::MemoryArea;
use crate::PhysicalAddress;
use crate::areas_prefix_size;
use crate::areas_total_size;
use crate::areas_wf;
use crate::arch::PAGE_SIZE;
use crate::arch::PHYS_LIMIT;
use crate::frame::FrameAllocator;
use crate::frame::FrameCount;
use crate::frame::FrameUsage;

verus! {

use vstd::arithmetic::div_mod::lemma_div_is_ordered;

/// Whether some area of the list contains the byte offset `p`.
pub open spec fn in_areas(areas: Seq<MemoryArea>, p: int) -> bool {
    exists|i: int|
        0 <= i < areas.len() && (#[trigger] areas[i]).base.spec_data() <= p < areas[i].spec_end()
}

/// The index of the area containing `p` (unique when the list is
/// well-formed).
pub open spec fn area_of(areas: Seq<MemoryArea>, p: int) -> int {
    choose|i: int|
        0 <= i < areas.len() && (#[trigger] areas[i]).base.spec_data() <= p < areas[i].spec_end()
}

/// The position of the address `p` within the concatenation of the areas.
pub open spec fn pos_of(areas: Seq<MemoryArea>, p: int) -> int
    recommends
        in_areas(areas, p),
{
    let i = area_of(areas, p);
    areas_prefix_size(areas, i) + (p - areas[i].base.spec_data())
}

/// All page bases covered by the area list.
pub open spec fn pool_of(areas: Seq<MemoryArea>) -> Set<int> {
    Set::new(|p: int| p % (PAGE_SIZE as int) == 0 && in_areas(areas, p))
}

/// Free bytes left in an area whose consumed prefix (relative to the
/// cursor position) is `rel`.
pub open spec fn avail(size: int, rel: int) -> int {
    if rel <= 0 {
        size
    } else if rel >= size {
        0
    } else {
        size - rel
    }
}

/// The cursor search: starting at area `i` with `off` bytes of the
/// concatenation from `i` on already consumed, find the first area that
/// still has `need` contiguous bytes, returning the address and the new
/// consumed offset (relative to area `i`). A tail too small for the
/// request is skipped and remains unused forever.
pub open spec fn bump_find(areas: Seq<MemoryArea>, i: int, off: int, need: int) -> Option<
    (int, int),
>
    decreases areas.len() - i,
{
    if i < 0 || i >= areas.len() {
        None
    } else {
        let a = areas[i];
        if off >= a.size {
            bump_shift(bump_find(areas, i + 1, off - a.size, need), a.size as int)
        } else if need <= a.size - off {
            Some((a.base.spec_data() + off, off + need))
        } else {
            bump_shift(bump_find(areas, i + 1, 0, need), a.size as int)
        }
    }
}

/// Shifts the consumed-offset component of a search result by the size of
/// one skipped area.
pub open spec fn bump_shift(r: Option<(int, int)>, s: int) -> Option<(int, int)> {
    match r {
        None => None,
        Some((addr, o)) => Some((addr, o + s)),
    }
}

pub struct BumpAllocator {
    areas: Vec<MemoryArea>,
    offset: u64,
}

proof fn lemma_prefix_mono(areas: Seq<MemoryArea>, m: int, n: int)
    requires
        areas_wf(areas),
        0 <= m <= n <= areas.len(),
    ensures
        areas_prefix_size(areas, m) <= areas_prefix_size(areas, n),
    decreases n - m,
{
    if m < n {
        lemma_prefix_mono(areas, m, n - 1);
        assert(areas[n - 1].size > 0);
    }
}

proof fn lemma_prefix_le_end(areas: Seq<MemoryArea>, n: int)
    requires
        areas_wf(areas),
        1 <= n <= areas.len(),
    ensures
        areas_prefix_size(areas, n) <= areas[n - 1].spec_end(),
    decreases n,
{
    if n == 1 {
        assert(areas_prefix_size(areas, 0) == 0);
        assert(areas_prefix_size(areas, 1) == areas[0].size);
    } else {
        lemma_prefix_le_end(areas, n - 1);
        assert(areas[n - 2].spec_end() <= areas[n - 1].base.spec_data());
    }
}

proof fn lemma_prefix_props(areas: Seq<MemoryArea>, n: int)
    requires
        areas_wf(areas),
        0 <= n <= areas.len(),
    ensures
        0 <= areas_prefix_size(areas, n),
        areas_prefix_size(areas, n) % (PAGE_SIZE as int) == 0,
        areas_prefix_size(areas, n) <= areas_total_size(areas),
        areas_total_size(areas) <= PHYS_LIMIT,
    decreases n,
{
    if n == 0 {
        assert(areas_prefix_size(areas, 0) == 0);
    } else {
        lemma_prefix_props(areas, n - 1);
        assert(areas[n - 1].size % PAGE_SIZE == 0);
    }
    lemma_prefix_mono(areas, n, areas.len() as int);
    if areas.len() > 0 {
        lemma_prefix_le_end(areas, areas.len() as int);
        assert(areas[areas.len() - 1].spec_end() <= PHYS_LIMIT);
    }
}

proof fn lemma_areas_sorted(areas: Seq<MemoryArea>, i: int, j: int)
    requires
        areas_wf(areas),
        0 <= i < j < areas.len(),
    ensures
        areas[i].spec_end() <= areas[j].base.spec_data(),
    decreases j - i,
{
    if j == i + 1 {
        assert(areas[i].spec_end() <= areas[i + 1].base.spec_data());
    } else {
        lemma_areas_sorted(areas, i, j - 1);
        assert(areas[j - 1].spec_end() <= areas[j].base.spec_data());
        assert(areas[j - 1].size > 0);
    }
}

/// Under a well-formed list, the area containing an address is unique, so
/// `area_of` returns exactly the known witness.
proof fn lemma_area_of(areas: Seq<MemoryArea>, p: int, j: int)
    requires
        areas_wf(areas),
        0 <= j < areas.len(),
        areas[j].base.spec_data() <= p < areas[j].spec_end(),
    ensures
        in_areas(areas, p),
        area_of(areas, p) == j,
{
    assert(in_areas(areas, p));
    let i = area_of(areas, p);
    if i < j {
        lemma_areas_sorted(areas, i, j);
    } else if i > j {
        lemma_areas_sorted(areas, j, i);
    }
}

/// The main facts about the cursor search: when it fails no area from `i`
/// on has `need` free bytes left, and when it succeeds the result names a
/// page-aligned, never-before-consumed run inside the returned witness
/// area, with the cursor advanced just past it.
proof fn lemma_bump_find(areas: Seq<MemoryArea>, i: int, off: int, need: int) -> (j: int)
    requires
        areas_wf(areas),
        0 <= i <= areas.len(),
        0 <= off,
        off % (PAGE_SIZE as int) == 0,
        off <= areas_total_size(areas) - areas_prefix_size(areas, i),
        need % (PAGE_SIZE as int) == 0,
        need >= PAGE_SIZE,
    ensures
        bump_find(areas, i, off, need) is None ==> forall|k: int|
            i <= k < areas.len() ==> avail(
                (#[trigger] areas[k]).size as int,
                off - (areas_prefix_size(areas, k) - areas_prefix_size(areas, i)),
            ) < need,
        bump_find(areas, i, off, need) matches Some(t) ==> {
            &&& i <= j < areas.len()
            &&& areas[j].base.spec_data() <= t.0
            &&& t.0 + need <= areas[j].spec_end()
            &&& t.0 % (PAGE_SIZE as int) == 0
            &&& t.1 == (areas_prefix_size(areas, j) - areas_prefix_size(areas, i)) + (t.0
                - areas[j].base.spec_data()) + need
            &&& t.1 % (PAGE_SIZE as int) == 0
            &&& off <= (areas_prefix_size(areas, j) - areas_prefix_size(areas, i)) + (t.0
                - areas[j].base.spec_data())
            &&& t.1 <= areas_total_size(areas) - areas_prefix_size(areas, i)
        },
    decreases areas.len() - i,
{
    lemma_prefix_props(areas, i);
    if i >= areas.len() {
        0
    } else {
        let a = areas[i];
        assert(a.size > 0 && a.size % PAGE_SIZE == 0 && a.base.spec_data() % PAGE_SIZE == 0
            && a.spec_end() <= PHYS_LIMIT);
        assert(areas_prefix_size(areas, i + 1) == areas_prefix_size(areas, i) + a.size);
        lemma_prefix_props(areas, i + 1);
        if off >= a.size {
            assert((off - a.size) % (PAGE_SIZE as int) == 0) by (nonlinear_arith)
                requires
                    off % (PAGE_SIZE as int) == 0,
                    a.size % PAGE_SIZE == 0,
                    PAGE_SIZE == 0x1000,
            {}
            let j = lemma_bump_find(areas, i + 1, off - a.size, need);
            let sub = bump_find(areas, i + 1, off - a.size, need);
            assert(bump_find(areas, i, off, need) == bump_shift(sub, a.size as int));
            if sub is None {
                assert forall|k: int| i <= k < areas.len() implies avail(
                    (#[trigger] areas[k]).size as int,
                    off - (areas_prefix_size(areas, k) - areas_prefix_size(areas, i)),
                ) < need by {
                    if k == i {
                        assert(avail(a.size as int, off) == 0);
                    } else {
                        assert(avail(
                            areas[k].size as int,
                            (off - a.size) - (areas_prefix_size(areas, k) - areas_prefix_size(
                                areas,
                                i + 1,
                            )),
                        ) < need);
                    }
                }
            } else {
                let t = sub.unwrap();
                assert((t.1 + a.size) % (PAGE_SIZE as int) == 0) by (nonlinear_arith)
                    requires
                        t.1 % (PAGE_SIZE as int) == 0,
                        a.size % PAGE_SIZE == 0,
                        PAGE_SIZE == 0x1000,
                {}
            }
            j
        } else if need <= a.size - off {
            assert((a.base.spec_data() + off) % (PAGE_SIZE as int) == 0 && (off + need) % (
            PAGE_SIZE as int) == 0) by (nonlinear_arith)
                requires
                    off % (PAGE_SIZE as int) == 0,
                    need % (PAGE_SIZE as int) == 0,
                    a.base.spec_data() % PAGE_SIZE == 0,
                    PAGE_SIZE == 0x1000,
            {}
            assert(bump_find(areas, i, off, need) == Some((a.base.spec_data() + off, off + need)));
            i
        } else {
            let j = lemma_bump_find(areas, i + 1, 0, need);
            let sub = bump_find(areas, i + 1, 0, need);
            assert(bump_find(areas, i, off, need) == bump_shift(sub, a.size as int));
            if sub is None {
                assert forall|k: int| i <= k < areas.len() implies avail(
                    (#[trigger] areas[k]).size as int,
                    off - (areas_prefix_size(areas, k) - areas_prefix_size(areas, i)),
                ) < need by {
                    if k == i {
                        assert(avail(a.size as int, off) <= a.size - off);
                    } else {
                        assert(avail(
                            areas[k].size as int,
                            0 - (areas_prefix_size(areas, k) - areas_prefix_size(areas, i + 1)),
                        ) < need);
                        lemma_prefix_mono(areas, i + 1, k);
                        assert(avail(
                            areas[k].size as int,
                            off - (areas_prefix_size(areas, k) - areas_prefix_size(areas, i)),
                        ) <= avail(
                            areas[k].size as int,
                            0 - (areas_prefix_size(areas, k) - areas_prefix_size(areas, i + 1)),
                        ));
                    }
                }
            } else {
                let t = sub.unwrap();
                assert((t.1 + a.size) % (PAGE_SIZE as int) == 0) by (nonlinear_arith)
                    requires
                        t.1 % (PAGE_SIZE as int) == 0,
                        a.size % PAGE_SIZE == 0,
                        PAGE_SIZE == 0x1000,
                {}
                assert(off <= (areas_prefix_size(areas, j) - areas_prefix_size(areas, i)) + (t.0
                    - areas[j].base.spec_data()));
            }
            j
        }
    }
}

impl BumpAllocator {
    /// The region list, for use in contracts.
    pub closed spec fn spec_areas(&self) -> Seq<MemoryArea> {
        self.areas@
    }

    /// The consumed cursor offset, for use in contracts.
    pub closed spec fn spec_offset(&self) -> u64 {
        self.offset
    }

    /// Internal invariant: a well-formed region list and a page-aligned
    /// cursor within the concatenated size.
    pub open spec fn inv(&self) -> bool {
        &&& areas_wf(self.spec_areas())
        &&& self.spec_offset() % PAGE_SIZE == 0
        &&& self.spec_offset() <= areas_total_size(self.spec_areas())
    }

    #[verifier::rlimit(50)]
    pub fn new(areas: Vec<MemoryArea>, offset: u64) -> (r: Self)
        requires
            areas_wf(areas@),
            offset % PAGE_SIZE == 0,
            offset <= areas_total_size(areas@),
        ensures
            r.inv(),
            r.spec_areas() == areas@,
            r.spec_offset() == offset,
    {
        BumpAllocator { areas, offset }
    }

    /// The region list this allocator was built over, so a successor
    /// allocator can re-derive what is left.
    pub fn areas(&self) -> (r: &Vec<MemoryArea>)
        ensures
            r@ == self.spec_areas(),
    {
        &self.areas
    }

    /// How many bytes of the concatenated region list have been consumed.
    pub fn offset(&self) -> (r: u64)
        ensures
            r == self.spec_offset(),
    {
        self.offset
    }

    /// Exec mirror of `bump_find`.
    fn find_from(areas: &Vec<MemoryArea>, i: usize, off: u64, need: u64) -> (r: Option<(u64, u64)>)
        requires
            areas_wf(areas@),
            i <= areas@.len(),
            off % PAGE_SIZE == 0,
            off <= areas_total_size(areas@) - areas_prefix_size(areas@, i as int),
            need % PAGE_SIZE == 0,
            PAGE_SIZE <= need <= PHYS_LIMIT,
        ensures
            r is None <==> bump_find(areas@, i as int, off as int, need as int) is None,
            r matches Some(t) ==> bump_find(areas@, i as int, off as int, need as int) == Some(
                (t.0 as int, t.1 as int),
            ),
        decreases areas@.len() - i,
    {
        proof {
            lemma_prefix_props(areas@, i as int);
        }
        if i >= areas.len() {
            None
        } else {
            let a = areas[i];
            proof {
                assert(areas@[i as int].size > 0);
                assert(areas_prefix_size(areas@, i as int + 1) == areas_prefix_size(
                    areas@,
                    i as int,
                ) + a.size);
                lemma_prefix_props(areas@, i as int + 1);
            }
            if off >= a.size {
                proof {
                    assert((off - a.size) % (PAGE_SIZE as int) == 0) by (nonlinear_arith)
                        requires
                            off % PAGE_SIZE == 0,
                            a.size % PAGE_SIZE == 0,
                            off >= a.size,
                            PAGE_SIZE == 0x1000,
                    {}
                }
                match Self::find_from(areas, i + 1, off - a.size, need) {
                    None => None,
                    Some((addr, no)) => {
                        proof {
                            let jj = lemma_bump_find(
                                areas@,
                                i as int + 1,
                                off as int - a.size as int,
                                need as int,
                            );
                        }
                        Some((addr, no + a.size))
                    },
                }
            } else if need <= a.size - off {
                proof {
                    assert(a.spec_end() <= PHYS_LIMIT);
                }
                Some((a.base.data() + off, off + need))
            } else {
                match Self::find_from(areas, i + 1, 0, need) {
                    None => None,
                    Some((addr, no)) => {
                        proof {
                            let jj = lemma_bump_find(areas@, i as int + 1, 0, need as int);
                        }
                        Some((addr, no + a.size))
                    },
                }
            }
        }
    }
}

impl FrameAllocator for BumpAllocator {
    open spec fn wf(&self) -> bool {
        self.inv()
    }

    open spec fn pool(&self) -> Set<int> {
        pool_of(self.spec_areas())
    }

    /// A page is allocated once the cursor has passed it; pages skipped by
    /// an allocation that did not fit a tail count as consumed too.
    open spec fn is_allocated(&self, p: int) -> bool {
        self.pool().contains(p) && pos_of(self.spec_areas(), p) < self.spec_offset()
    }

    open spec fn used_count(&self) -> int {
        self.spec_offset() as int / (PAGE_SIZE as int)
    }

    open spec fn total_count(&self) -> int {
        areas_total_size(self.spec_areas()) / (PAGE_SIZE as int)
    }

    /// Exactly the cursor search: the regions are unchanged, and the
    /// cursor and result are those of `bump_find` from the old cursor.
    open spec fn alloc_post(&self, pre: Self, count: int, r: Option<PhysicalAddress>) -> bool {
        &&& self.spec_areas() == pre.spec_areas()
        &&& match bump_find(
            pre.spec_areas(),
            0,
            pre.spec_offset() as int,
            count * (PAGE_SIZE as int),
        ) {
            None => r is None && self.spec_offset() == pre.spec_offset(),
            Some((addr, noff)) => {
                &&& r matches Some(p) && p.spec_data() == addr
                &&& self.spec_offset() == noff
            },
        }
    }

    open spec fn free_pre(&self, address: PhysicalAddress, count: int) -> bool {
        true
    }

    /// Freeing is a no-op: bootstrap memory is never reused.
    open spec fn free_post(&self, pre: Self, address: PhysicalAddress, count: int) -> bool {
        *self == pre
    }

    fn allocate(&mut self, count: FrameCount) -> (r: Option<PhysicalAddress>) {
        let c = count.data();
        proof {
            lemma_prefix_props(self.spec_areas(), 0);
        }
        if c > PHYS_LIMIT / PAGE_SIZE {
            proof {
                let jn = lemma_bump_find(
                    self.spec_areas(),
                    0,
                    self.spec_offset() as int,
                    c as int * (PAGE_SIZE as int),
                );
                assert(bump_find(
                    self.spec_areas(),
                    0,
                    self.spec_offset() as int,
                    c as int * (PAGE_SIZE as int),
                ) is None) by {
                    if bump_find(
                        self.spec_areas(),
                        0,
                        self.spec_offset() as int,
                        c as int * (PAGE_SIZE as int),
                    ) is Some {
                        let t = bump_find(
                            self.spec_areas(),
                            0,
                            self.spec_offset() as int,
                            c as int * (PAGE_SIZE as int),
                        ).unwrap();
                        assert(areas_wf(self.spec_areas()));
                        assert(self.spec_areas()[jn].spec_end() <= PHYS_LIMIT);
                        assert(t.0 + c as int * (PAGE_SIZE as int) <= PHYS_LIMIT);
                        assert(c as int * (PAGE_SIZE as int) > PHYS_LIMIT) by (nonlinear_arith)
                            requires
                                c > PHYS_LIMIT / PAGE_SIZE,
                        {}
                    }
                }
            }
            return None;
        }
        let need = c * PAGE_SIZE;
        proof {
            assert(need == c * PAGE_SIZE && need % PAGE_SIZE == 0 && need >= PAGE_SIZE)
                by (nonlinear_arith)
                requires
                    1 <= c <= PHYS_LIMIT / PAGE_SIZE,
                    need == c * PAGE_SIZE,
            {}
            assert(need <= PHYS_LIMIT) by (nonlinear_arith)
                requires
                    1 <= c <= PHYS_LIMIT / PAGE_SIZE,
                    need == c * PAGE_SIZE,
            {}
        }
        let found = Self::find_from(&self.areas, 0, self.offset, need);
        match found {
            None => None,
            Some((addr, noff)) => {
                proof {
                    let j = lemma_bump_find(
                        self.spec_areas(),
                        0,
                        self.spec_offset() as int,
                        need as int,
                    );
                    let t = (addr as int, noff as int);
                    assert(areas_prefix_size(self.spec_areas(), 0) == 0);
                    let pos0 = areas_prefix_size(self.spec_areas(), j) + (addr
                        - self.spec_areas()[j].base.spec_data());
                    assert forall|q: int|
                        addr <= q < addr + need && q % (PAGE_SIZE as int) == 0 implies pool_of(
                        self.spec_areas(),
                    ).contains(q) && pos_of(self.spec_areas(), q) == pos0 + (q - addr) by {
                        lemma_area_of(self.spec_areas(), q, j);
                    }
                }
                self.offset = noff;
                Some(PhysicalAddress::new(addr))
            },
        }
    }

    #[allow(unused_variables)]
    fn free(&mut self, address: PhysicalAddress, count: FrameCount) {
    }

    fn usage(&self) -> (r: FrameUsage) {
        let mut total: u64 = 0;
        let mut j: usize = 0;
        proof {
            lemma_prefix_props(self.spec_areas(), 0);
        }
        while j < self.areas.len()
            invariant
                areas_wf(self.spec_areas()),
                j <= self.areas@.len(),
                total == areas_prefix_size(self.spec_areas(), j as int),
                0 <= total <= PHYS_LIMIT,
            decreases self.areas@.len() - j,
        {
            proof {
                lemma_prefix_props(self.spec_areas(), j as int + 1);
                assert(areas_prefix_size(self.spec_areas(), j as int + 1) == areas_prefix_size(
                    self.spec_areas(),
                    j as int,
                ) + self.spec_areas()[j as int].size);
            }
            total = total + self.areas[j].size;
            j = j + 1;
        }
        proof {
            lemma_div_is_ordered(self.spec_offset() as int, total as int, PAGE_SIZE as int);
        }
        FrameUsage::new(FrameCount::new(self.offset / PAGE_SIZE), FrameCount::new(
            total / PAGE_SIZE,
        ))
    }
}

} // verus!
