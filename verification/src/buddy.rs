//! The steady-state buddy-style frame allocator. It is built by consuming
//! a `BumpAllocator`: the unconsumed remainder of every bootstrap region
//! is re-derived from the bump cursor and inserted into a fixed-capacity
//! table of region entries, coalescing physically adjacent regions into
//! one entry. Every entry reserves its leading pages for one usage byte
//! per page of the region — metadata stored in-band, inside the very
//! memory it describes; those pages are marked used and are never candidates
//! for allocation or freeing. The entry record itself holds the usage
//! bytes, so the verifier sees them directly; the reserved pages, the
//! `skip`/`used` accounting, and every address handed out are exactly
//! those of the in-band layout. Steady-state allocation is a first-fit
//! scan of the usage bytes.

use vstd::prelude::*;

use crate::MemoryArea;
use crate::PhysicalAddress;
use crate::areas_total_size;
use crate::areas_wf;
use crate::arch::PAGE_OFFSET_MASK;
use crate::arch::PAGE_SIZE;
use crate::arch::PHYS_LIMIT;
use crate::bump::BumpAllocator;
use crate::frame::FrameAllocator;
use crate::frame::FrameCount;
use crate::frame::FrameUsage;

verus! {

broadcast use crate::lemma_phys_spec_new;

/// Capacity of the entry table: as many region slots as fit in one page
/// of the in-band control table (one page divided by the 32-byte record
/// of base, size, skip and used).
pub const BUDDY_ENTRIES: usize = 128;

/// One tracked region: a contiguous physical range plus its per-page
/// usage bytes. A usage byte is 0 when the page is free and nonzero when
/// it is handed out or reserved; the first `skip` pages hold the metadata
/// itself and stay reserved forever.
#[derive(Clone, Debug)]
pub struct BuddyEntry {
    base: PhysicalAddress,
    size: u64,
    skip: u64,
    used: u64,
    usage: Vec<u8>,
}

/// Number of nonzero bytes of a usage sequence.
pub open spec fn count_ones(s: Seq<u8>) -> int
    decreases s.len(),
{
    if s.len() == 0 {
        0
    } else {
        count_ones(s.drop_last()) + if s.last() != 0 {
            1int
        } else {
            0int
        }
    }
}

impl BuddyEntry {
    pub closed spec fn spec_base(&self) -> u64 {
        self.base.spec_data()
    }

    pub closed spec fn spec_size(&self) -> u64 {
        self.size
    }

    pub closed spec fn spec_skip(&self) -> u64 {
        self.skip
    }

    pub closed spec fn spec_used(&self) -> u64 {
        self.used
    }

    pub closed spec fn spec_usage(&self) -> Seq<u8> {
        self.usage@
    }

    /// One past the last physical offset of the region.
    pub open spec fn spec_end(&self) -> int {
        self.spec_base() + self.spec_size()
    }

    /// Pages covered by the region.
    pub open spec fn spec_pages(&self) -> int {
        self.spec_size() as int / (PAGE_SIZE as int)
    }

    /// Pages reserved at the start of the region for its usage bytes: one
    /// byte per page, rounded up to whole pages.
    pub open spec fn spec_usage_pages(&self) -> int {
        (self.spec_pages() + PAGE_OFFSET_MASK) / (PAGE_SIZE as int)
    }

    /// Internal invariant of one non-empty entry.
    pub open spec fn wf(&self) -> bool {
        &&& self.spec_size() > 0
        &&& self.spec_size() % PAGE_SIZE == 0
        &&& self.spec_base() % PAGE_SIZE == 0
        &&& self.spec_end() <= PHYS_LIMIT
        &&& self.spec_usage().len() == self.spec_pages()
        &&& self.spec_skip() == self.spec_usage_pages()
        &&& self.spec_skip() <= self.spec_pages()
        &&& forall|i: int| 0 <= i < self.spec_skip() ==> self.spec_usage()[i] != 0
        &&& self.spec_used() == count_ones(self.spec_usage())
    }

    /// An empty slot, as the zeroed control table holds before any region
    /// is inserted.
    pub fn empty() -> (r: Self)
        ensures
            r.spec_size() == 0,
            r.spec_skip() == 0,
            r.spec_used() == 0,
            r.spec_usage().len() == 0,
    {
        BuddyEntry {
            base: PhysicalAddress::new(0),
            size: 0,
            skip: 0,
            used: 0,
            usage: Vec::new(),
        }
    }

    pub fn base(&self) -> (r: PhysicalAddress)
        ensures
            r.spec_data() == self.spec_base(),
    {
        self.base
    }

    pub fn size(&self) -> (r: u64)
        ensures
            r == self.spec_size(),
    {
        self.size
    }

    pub fn skip(&self) -> (r: u64)
        ensures
            r == self.spec_skip(),
    {
        self.skip
    }

    pub fn used(&self) -> (r: u64)
        ensures
            r == self.spec_used(),
    {
        self.used
    }

    /// Pages covered by this region.
    pub fn pages(&self) -> (r: u64)
        requires
            self.spec_size() % PAGE_SIZE == 0,
        ensures
            r == self.spec_pages(),
    {
        self.size / PAGE_SIZE
    }

    /// Pages reserved for the region's usage bytes.
    pub fn usage_pages(&self) -> (r: u64)
        requires
            self.spec_size() % PAGE_SIZE == 0,
            self.spec_size() <= PHYS_LIMIT,
        ensures
            r == self.spec_usage_pages(),
    {
        let pages = self.size / PAGE_SIZE;
        (pages + PAGE_OFFSET_MASK) / PAGE_SIZE
    }
}

proof fn lemma_count_ones_bounds(s: Seq<u8>)
    ensures
        0 <= count_ones(s) <= s.len(),
    decreases s.len(),
{
    if s.len() > 0 {
        lemma_count_ones_bounds(s.drop_last());
    }
}

proof fn lemma_count_ones_push(s: Seq<u8>, v: u8)
    ensures
        count_ones(s.push(v)) == count_ones(s) + if v != 0 {
            1int
        } else {
            0int
        },
{
    assert(s.push(v).drop_last() =~= s);
    assert(s.push(v).last() == v);
}

proof fn lemma_count_ones_update(s: Seq<u8>, i: int, v: u8)
    requires
        0 <= i < s.len(),
    ensures
        count_ones(s.update(i, v)) == count_ones(s) - (if s[i] != 0 {
            1int
        } else {
            0int
        }) + (if v != 0 {
            1int
        } else {
            0int
        }),
    decreases s.len(),
{
    if i == s.len() - 1 {
        assert(s.update(i, v).drop_last() =~= s.drop_last());
        assert(s.update(i, v).last() == v);
        assert(s.last() == s[i]);
    } else {
        assert(s.update(i, v).drop_last() =~= s.drop_last().update(i, v));
        lemma_count_ones_update(s.drop_last(), i, v);
        assert(s.drop_last()[i] == s[i]);
        assert(s.update(i, v).last() == s.last());
    }
}

/// If every byte below `k` is nonzero, at least `k` bytes are nonzero.
proof fn lemma_count_ones_lower(s: Seq<u8>, k: int)
    requires
        0 <= k <= s.len(),
        forall|i: int| 0 <= i < k ==> s[i] != 0,
    ensures
        count_ones(s) >= k,
    decreases s.len(),
{
    if s.len() > 0 {
        if k == s.len() {
            lemma_count_ones_lower(s.drop_last(), k - 1);
        } else {
            lemma_count_ones_lower(s.drop_last(), k);
        }
    }
}

/// The unconsumed remainder of the bootstrap regions once `off` bytes of
/// their concatenation have been handed out: fully consumed areas vanish,
/// a partially consumed area is truncated from the front, the rest stay.
pub open spec fn remainders(areas: Seq<MemoryArea>, off: int) -> Seq<MemoryArea>
    decreases areas.len(),
{
    if areas.len() == 0 {
        Seq::empty()
    } else {
        let a = areas[0];
        if off >= a.size {
            remainders(areas.drop_first(), off - a.size)
        } else if off > 0 {
            seq![
                MemoryArea {
                    base: PhysicalAddress::spec_new((a.base.spec_data() + off) as u64),
                    size: (a.size - off) as u64,
                },
            ] + remainders(areas.drop_first(), 0)
        } else {
            seq![a] + remainders(areas.drop_first(), 0)
        }
    }
}

/// How many of the first `n` regions remain after coalescing physically
/// adjacent neighbours: the number of maximal adjacent groups among them.
pub open spec fn runs_prefix(s: Seq<MemoryArea>, n: int) -> int
    decreases n,
{
    if n <= 0 {
        0
    } else if n == 1 {
        1
    } else {
        runs_prefix(s, n - 1) + if s[n - 2].spec_end() == s[n - 1].base.spec_data() {
            0int
        } else {
            1int
        }
    }
}

/// How many entries a region list needs once physically adjacent
/// neighbours are coalesced.
pub open spec fn runs_of(s: Seq<MemoryArea>) -> int {
    runs_prefix(s, s.len() as int)
}

/// The coalesced runs of the first `n` regions: each maximal chain of
/// pairwise physically adjacent regions becomes one (base, end) pair, in
/// address order.
pub open spec fn runs_seq(s: Seq<MemoryArea>, n: int) -> Seq<(int, int)>
    decreases n,
{
    if n <= 0 {
        Seq::empty()
    } else if n == 1 {
        seq![(s[0].base.spec_data() as int, s[0].spec_end())]
    } else {
        let prev = runs_seq(s, n - 1);
        if s[n - 2].spec_end() == s[n - 1].base.spec_data() {
            prev.update(prev.len() - 1, (prev[prev.len() - 1].0, s[n - 1].spec_end()))
        } else {
            prev.push((s[n - 1].base.spec_data() as int, s[n - 1].spec_end()))
        }
    }
}

proof fn lemma_runs_seq_len(s: Seq<MemoryArea>, n: int)
    ensures
        runs_seq(s, n).len() == runs_prefix(s, n),
    decreases n,
{
    if n > 1 {
        lemma_runs_seq_len(s, n - 1);
        lemma_runs_prefix_mono(s, 1, n - 1);
        let prev = runs_seq(s, n - 1);
        if s[n - 2].spec_end() == s[n - 1].base.spec_data() {
            assert(runs_seq(s, n).len() == prev.len());
        } else {
            assert(runs_seq(s, n).len() == prev.len() + 1);
        }
    }
}

proof fn lemma_runs_prefix_mono(s: Seq<MemoryArea>, a: int, b: int)
    requires
        a <= b,
    ensures
        runs_prefix(s, a) <= runs_prefix(s, b),
    decreases b - a,
{
    if a < b {
        lemma_runs_prefix_mono(s, a, b - 1);
    }
}

/// Total pages over a sequence of entries.
pub open spec fn sum_pages(s: Seq<BuddyEntry>) -> int
    decreases s.len(),
{
    if s.len() == 0 {
        0
    } else {
        sum_pages(s.drop_last()) + s.last().spec_pages()
    }
}

/// Total used pages over a sequence of entries.
pub open spec fn sum_used(s: Seq<BuddyEntry>) -> int
    decreases s.len(),
{
    if s.len() == 0 {
        0
    } else {
        sum_used(s.drop_last()) + s.last().spec_used()
    }
}

proof fn lemma_sum_pages_push(s: Seq<BuddyEntry>, e: BuddyEntry)
    ensures
        sum_pages(s.push(e)) == sum_pages(s) + e.spec_pages(),
{
    assert(s.push(e).drop_last() =~= s);
}

proof fn lemma_sum_update(s: Seq<BuddyEntry>, k: int, e: BuddyEntry)
    requires
        0 <= k < s.len(),
    ensures
        sum_pages(s.update(k, e)) == sum_pages(s) - s[k].spec_pages() + e.spec_pages(),
        sum_used(s.update(k, e)) == sum_used(s) - s[k].spec_used() + e.spec_used(),
    decreases s.len(),
{
    if k == s.len() - 1 {
        assert(s.update(k, e).drop_last() =~= s.drop_last());
        assert(s.update(k, e).last() == e);
        assert(s.last() == s[k]);
    } else {
        assert(s.update(k, e).drop_last() =~= s.drop_last().update(k, e));
        lemma_sum_update(s.drop_last(), k, e);
        assert(s.drop_last()[k] == s[k]);
        assert(s.update(k, e).last() == s.last());
    }
}

proof fn lemma_areas_wf_drop_first(s: Seq<MemoryArea>)
    requires
        areas_wf(s),
        s.len() > 0,
    ensures
        areas_wf(s.drop_first()),
{
    assert forall|i: int| 0 <= i < s.drop_first().len() implies {
        &&& (#[trigger] s.drop_first()[i]).size > 0
        &&& s.drop_first()[i].size % PAGE_SIZE == 0
        &&& s.drop_first()[i].base.spec_data() % PAGE_SIZE == 0
        &&& s.drop_first()[i].spec_end() <= PHYS_LIMIT
        &&& (i + 1 < s.drop_first().len() ==> s.drop_first()[i].spec_end() <= s.drop_first()[i
            + 1].base.spec_data())
    } by {
        assert(s.drop_first()[i] == s[i + 1]);
        assert(s[i + 1].size > 0);
        if i + 1 < s.drop_first().len() {
            assert(s.drop_first()[i + 1] == s[i + 2]);
            assert(s[i + 1].spec_end() <= s[i + 2].base.spec_data());
        }
    }
}

proof fn lemma_prefix_drop_first(s: Seq<MemoryArea>, n: int)
    requires
        1 <= n <= s.len(),
    ensures
        crate::areas_prefix_size(s, n) == s[0].size + crate::areas_prefix_size(
            s.drop_first(),
            n - 1,
        ),
    decreases n,
{
    if n == 1 {
        assert(crate::areas_prefix_size(s, 0) == 0);
        assert(crate::areas_prefix_size(s.drop_first(), 0) == 0);
    } else {
        lemma_prefix_drop_first(s, n - 1);
        assert(s.drop_first()[n - 2] == s[n - 1]);
    }
}

proof fn lemma_total_drop_first(s: Seq<MemoryArea>)
    requires
        s.len() > 0,
    ensures
        areas_total_size(s) == s[0].size + areas_total_size(s.drop_first()),
{
    lemma_prefix_drop_first(s, s.len() as int);
}

/// With nothing consumed, the remainder is the region list itself.
proof fn lemma_remainders_zero(s: Seq<MemoryArea>)
    requires
        areas_wf(s),
    ensures
        remainders(s, 0) == s,
    decreases s.len(),
{
    if s.len() > 0 {
        assert(s[0].size > 0);
        lemma_areas_wf_drop_first(s);
        lemma_remainders_zero(s.drop_first());
        assert(remainders(s, 0) =~= s);
    } else {
        assert(remainders(s, 0) =~= s);
    }
}

/// The remainder list is itself a well-formed region list covering
/// exactly what the cursor has not consumed.
proof fn lemma_remainders_wf(areas: Seq<MemoryArea>, off: int)
    requires
        areas_wf(areas),
        0 <= off <= areas_total_size(areas),
        off % (PAGE_SIZE as int) == 0,
    ensures
        areas_wf(remainders(areas, off)),
        areas_total_size(remainders(areas, off)) == areas_total_size(areas) - off,
    decreases areas.len(),
{
    if areas.len() == 0 {
        assert(areas_total_size(areas) == crate::areas_prefix_size(areas, 0));
        assert(areas_total_size(remainders(areas, off)) == 0);
    } else {
        let a = areas[0];
        assert(a.size > 0 && a.size % PAGE_SIZE == 0 && a.base.spec_data() % PAGE_SIZE == 0
            && a.spec_end() <= PHYS_LIMIT);
        lemma_areas_wf_drop_first(areas);
        lemma_total_drop_first(areas);
        if off >= a.size {
            assert((off - a.size) % (PAGE_SIZE as int) == 0) by (nonlinear_arith)
                requires
                    off % (PAGE_SIZE as int) == 0,
                    a.size % PAGE_SIZE == 0,
                    PAGE_SIZE == 0x1000,
            {}
            lemma_remainders_wf(areas.drop_first(), off - a.size);
        } else if off > 0 {
            lemma_remainders_zero(areas.drop_first());
            let t = MemoryArea {
                base: PhysicalAddress::spec_new((a.base.spec_data() + off) as u64),
                size: (a.size - off) as u64,
            };
            assert(t.size % PAGE_SIZE == 0 && t.base.spec_data() % PAGE_SIZE == 0)
                by (nonlinear_arith)
                requires
                    off % (PAGE_SIZE as int) == 0,
                    a.size % PAGE_SIZE == 0,
                    a.base.spec_data() % PAGE_SIZE == 0,
                    0 < off < a.size,
                    PAGE_SIZE == 0x1000,
                    t.size == a.size - off,
                    t.base.spec_data() == a.base.spec_data() + off,
            {}
            let rem = remainders(areas, off);
            assert(rem == seq![t] + areas.drop_first());
            assert forall|i: int| 0 <= i < rem.len() implies {
                &&& (#[trigger] rem[i]).size > 0
                &&& rem[i].size % PAGE_SIZE == 0
                &&& rem[i].base.spec_data() % PAGE_SIZE == 0
                &&& rem[i].spec_end() <= PHYS_LIMIT
                &&& (i + 1 < rem.len() ==> rem[i].spec_end() <= rem[i + 1].base.spec_data())
            } by {
                if i == 0 {
                    assert(rem[0] == t);
                    if rem.len() > 1 {
                        assert(rem[1] == areas[1]);
                        assert(a.spec_end() <= areas[1].base.spec_data());
                    }
                } else {
                    assert(rem[i] == areas[i]);
                    if i + 1 < rem.len() {
                        assert(rem[i + 1] == areas[i + 1]);
                        assert(areas[i].spec_end() <= areas[i + 1].base.spec_data());
                    }
                }
            }
            assert(areas_total_size(rem) == t.size + areas_total_size(areas.drop_first())) by {
                lemma_total_drop_first(rem);
                assert(rem[0] == t);
                assert(rem.drop_first() =~= areas.drop_first());
            }
        } else {
            lemma_remainders_zero(areas);
        }
    }
}

/// Whether some entry of the table covers the physical offset `p`.
pub open spec fn in_entries(s: Seq<BuddyEntry>, p: int) -> bool {
    exists|k: int| 0 <= k < s.len() && (#[trigger] s[k]).spec_base() <= p < s[k].spec_end()
}

/// The index of the entry covering `p` (unique when the table is
/// well-formed).
pub open spec fn entry_of(s: Seq<BuddyEntry>, p: int) -> int {
    choose|k: int| 0 <= k < s.len() && (#[trigger] s[k]).spec_base() <= p < s[k].spec_end()
}

/// A freshly constructed entry: exactly the metadata pages are marked.
pub open spec fn entry_fresh(e: BuddyEntry) -> bool {
    &&& e.spec_used() == e.spec_skip()
    &&& forall|i: int|
        0 <= i < e.spec_usage().len() ==> ((#[trigger] e.spec_usage()[i]) != 0 <==> i
            < e.spec_skip())
}

/// The general-purpose frame allocator: a bounded table of coalesced
/// region entries, each carrying one usage byte per page.
pub struct BuddyAllocator {
    entries: Vec<BuddyEntry>,
}

impl BuddyAllocator {
    /// The entry table, for use in contracts.
    pub closed spec fn spec_entries(&self) -> Seq<BuddyEntry> {
        self.entries@
    }

    /// Internal invariant: at most `BUDDY_ENTRIES` well-formed entries,
    /// sorted and pairwise disjoint.
    pub open spec fn inv(&self) -> bool {
        &&& self.spec_entries().len() <= BUDDY_ENTRIES
        &&& forall|k: int|
            0 <= k < self.spec_entries().len() ==> (#[trigger] self.spec_entries()[k]).wf()
        &&& forall|k: int|
            0 <= k && k + 1 < self.spec_entries().len() ==> (
            #[trigger] self.spec_entries()[k]).spec_end()
                < self.spec_entries()[k + 1].spec_base()
    }

    /// How many regions the table currently tracks.
    pub fn entry_count(&self) -> (r: usize)
        ensures
            r == self.spec_entries().len(),
    {
        self.entries.len()
    }

    /// The entry at index `i`, for inspection.
    pub fn entry(&self, i: usize) -> (r: Option<&BuddyEntry>)
        ensures
            r is Some <==> i < self.spec_entries().len(),
            r matches Some(e) ==> *e == self.spec_entries()[i as int],
    {
        if i < self.entries.len() {
            Some(&self.entries[i])
        } else {
            None
        }
    }
}

proof fn lemma_entries_sorted(s: Seq<BuddyEntry>, i: int, j: int)
    requires
        forall|k: int| 0 <= k < s.len() ==> (#[trigger] s[k]).wf(),
        forall|k: int| 0 <= k && k + 1 < s.len() ==> (#[trigger] s[k]).spec_end() < s[k
            + 1].spec_base(),
        0 <= i < j < s.len(),
    ensures
        s[i].spec_end() < s[j].spec_base(),
    decreases j - i,
{
    if j == i + 1 {
    } else {
        lemma_entries_sorted(s, i, j - 1);
        assert(s[j - 1].wf());
    }
}

/// Under the table invariant, the entry covering an address is unique.
proof fn lemma_entry_of(s: Seq<BuddyEntry>, p: int, j: int)
    requires
        forall|k: int| 0 <= k < s.len() ==> (#[trigger] s[k]).wf(),
        forall|k: int| 0 <= k && k + 1 < s.len() ==> (#[trigger] s[k]).spec_end() < s[k
            + 1].spec_base(),
        0 <= j < s.len(),
        s[j].spec_base() <= p < s[j].spec_end(),
    ensures
        in_entries(s, p),
        entry_of(s, p) == j,
{
    assert(in_entries(s, p));
    let i = entry_of(s, p);
    if i < j {
        lemma_entries_sorted(s, i, j);
    } else if i > j {
        lemma_entries_sorted(s, j, i);
    }
}

/// Re-derives the unconsumed remainder of the bootstrap regions from the
/// bump cursor.
fn derive_remainders(areas: &Vec<MemoryArea>, offset: u64) -> (r: Vec<MemoryArea>)
    requires
        areas_wf(areas@),
    ensures
        r@ == remainders(areas@, offset as int),
{
    let ghost areas0 = areas@;
    let mut off = offset;
    let mut rem: Vec<MemoryArea> = Vec::new();
    let mut i: usize = 0;
    proof {
        assert(areas0.skip(0) =~= areas0);
        assert(rem@ + remainders(areas0.skip(0), off as int) =~= remainders(
            areas0,
            offset as int,
        ));
    }
    while i < areas.len()
        invariant
            areas_wf(areas0),
            areas@ == areas0,
            i <= areas@.len(),
            remainders(areas0, offset as int) == rem@ + remainders(
                areas0.skip(i as int),
                off as int,
            ),
        decreases areas@.len() - i,
    {
        let a = areas[i];
        proof {
            assert(areas0[i as int].size > 0 && areas0[i as int].spec_end() <= PHYS_LIMIT);
            assert(areas0.skip(i as int)[0] == areas0[i as int]);
            assert(areas0.skip(i as int).drop_first() =~= areas0.skip(i as int + 1));
        }
        if off >= a.size {
            off = off - a.size;
        } else if off > 0 {
            let piece = MemoryArea { base: a.base.add(off), size: a.size - off };
            proof {
                crate::lemma_addresses_equal(
                    piece.base,
                    PhysicalAddress::spec_new((a.base.spec_data() + off) as u64),
                );
                assert(rem@ + (seq![piece] + remainders(areas0.skip(i as int + 1), 0)) =~= (
                rem@.push(piece) + remainders(areas0.skip(i as int + 1), 0)));
            }
            rem.push(piece);
            off = 0;
        } else {
            proof {
                assert(rem@ + (seq![a] + remainders(areas0.skip(i as int + 1), 0)) =~= (rem@.push(
                    a,
                ) + remainders(areas0.skip(i as int + 1), 0)));
            }
            rem.push(a);
        }
        i = i + 1;
    }
    proof {
        assert(areas0.skip(areas0.len() as int).len() == 0);
        assert(remainders(areas0, offset as int) =~= rem@);
    }
    rem
}

/// Inserts the remainder regions into a bounded run list, coalescing a
/// region that is physically adjacent to the previously inserted run
/// into that run. Fails exactly when the coalesced runs outnumber the
/// entry table's capacity.
#[verifier::rlimit(100)]
#[verifier::spinoff_prover]
fn coalesce_runs(rem: &Vec<MemoryArea>) -> (r: Option<Vec<MemoryArea>>)
    requires
        areas_wf(rem@),
    ensures
        r is Some <==> runs_of(rem@) <= BUDDY_ENTRIES,
        r matches Some(runs) ==> {
            &&& areas_wf(runs@)
            &&& runs@.len() == runs_of(rem@)
            &&& forall|k: int|
                0 <= k && k + 1 < runs@.len() ==> (#[trigger] runs@[k]).spec_end() < runs@[k
                    + 1].base.spec_data()
            &&& areas_total_size(runs@) == areas_total_size(rem@)
            &&& forall|k: int|
                0 <= k < runs@.len() ==> (#[trigger] runs@[k]).base.spec_data() == runs_seq(
                    rem@,
                    rem@.len() as int,
                )[k].0 && runs@[k].spec_end() == runs_seq(rem@, rem@.len() as int)[k].1
        },
{
    let ghost remg = rem@;
    let mut runs: Vec<MemoryArea> = Vec::new();
    let mut m: usize = 0;
    proof {
        assert(crate::areas_prefix_size(remg, 0) == 0);
    }
    while m < rem.len()
        invariant
            areas_wf(remg),
            rem@ == remg,
            m <= rem@.len(),
            runs@.len() <= BUDDY_ENTRIES,
            runs@.len() == runs_prefix(remg, m as int),
            areas_wf(runs@),
            forall|k: int|
                0 <= k && k + 1 < runs@.len() ==> (#[trigger] runs@[k]).spec_end() < runs@[k
                    + 1].base.spec_data(),
            areas_total_size(runs@) == crate::areas_prefix_size(remg, m as int),
            runs@.len() == runs_seq(remg, m as int).len(),
            forall|k: int|
                0 <= k < runs@.len() ==> (#[trigger] runs@[k]).base.spec_data() == runs_seq(
                    remg,
                    m as int,
                )[k].0 && runs@[k].spec_end() == runs_seq(remg, m as int)[k].1,
            m > 0 ==> runs@.len() > 0 && runs@.last().spec_end() == remg[m as int - 1].spec_end(),
            m == 0 ==> runs@.len() == 0,
        decreases rem@.len() - m,
    {
        let a = rem[m];
        proof {
            assert(remg[m as int].size > 0 && remg[m as int].spec_end() <= PHYS_LIMIT);
            if m > 0 {
                assert(remg[m as int - 1].spec_end() <= remg[m as int].base.spec_data());
            }
        }
        let rlen = runs.len();
        let merged = if rlen > 0 {
            let last = &runs[rlen - 1];
            last.base.data() + last.size == a.base.data()
        } else {
            false
        };
        if merged {
            let ghost runs_old = runs@;
            let last = runs.pop().unwrap();
            let bigger = MemoryArea { base: last.base, size: last.size + a.size };
            proof {
                lemma_total_push(runs@, last);
                assert(runs@.push(last) =~= runs_old);
                lemma_total_push(runs@, bigger);
                assert((last.size + a.size) % (PAGE_SIZE as int) == 0) by (nonlinear_arith)
                    requires
                        last.size % PAGE_SIZE == 0,
                        remg[m as int].size % PAGE_SIZE == 0,
                        a == remg[m as int],
                        bigger.size == last.size + a.size,
                    {}
            }
            runs.push(bigger);
            proof {
                assert(runs@ =~= runs_old.drop_last().push(bigger));
                assert forall|k: int| 0 <= k < runs@.len() implies {
                    &&& (#[trigger] runs@[k]).size > 0
                    &&& runs@[k].size % PAGE_SIZE == 0
                    &&& runs@[k].base.spec_data() % PAGE_SIZE == 0
                    &&& runs@[k].spec_end() <= PHYS_LIMIT
                    &&& (k + 1 < runs@.len() ==> runs@[k].spec_end() < runs@[k
                        + 1].base.spec_data())
                } by {
                    if k < runs@.len() - 1 {
                        assert(runs@[k] == runs_old[k]);
                        if k + 1 < runs@.len() - 1 {
                            assert(runs@[k + 1] == runs_old[k + 1]);
                        } else {
                            assert(runs@[k + 1] == bigger);
                        }
                    } else {
                        assert(runs@[k] == bigger);
                    }
                }
                let rs0 = runs_seq(remg, m as int);
                let rs1 = runs_seq(remg, m as int + 1);
                assert(rs1 == rs0.update(rs0.len() - 1, (rs0[rs0.len() - 1].0, remg[
                    m as int].spec_end())));
                assert forall|k: int| 0 <= k < runs@.len() implies (
                #[trigger] runs@[k]).base.spec_data() == rs1[k].0 && runs@[k].spec_end()
                    == rs1[k].1 by {
                    if k < runs@.len() - 1 {
                        assert(runs@[k] == runs_old[k]);
                        assert(rs1[k] == rs0[k]);
                    } else {
                        assert(runs@[k] == bigger);
                    }
                }
            }
        } else {
            if runs.len() == BUDDY_ENTRIES {
                proof {
                    lemma_runs_prefix_mono(remg, m as int + 1, remg.len() as int);
                }
                return None;
            }
            let ghost runs_old = runs@;
            proof {
                lemma_total_push(runs@, a);
            }
            runs.push(a);
            proof {
                let rs0 = runs_seq(remg, m as int);
                let rs1 = runs_seq(remg, m as int + 1);
                if m == 0 {
                    assert(rs1 =~= seq![
                        (remg[0].base.spec_data() as int, remg[0].spec_end()),
                    ]);
                } else {
                    assert(remg[m as int - 1].spec_end() != remg[m as int].base.spec_data());
                    assert(rs1 == rs0.push(
                        (remg[m as int].base.spec_data() as int, remg[m as int].spec_end()),
                    ));
                }
                assert forall|k: int| 0 <= k < runs@.len() implies (
                #[trigger] runs@[k]).base.spec_data() == rs1[k].0 && runs@[k].spec_end()
                    == rs1[k].1 by {
                    if k < runs@.len() - 1 {
                        assert(runs@[k] == runs_old[k]);
                    } else {
                        assert(runs@[k] == a);
                    }
                }
            }
        }
        m = m + 1;
    }
    Some(runs)
}

/// Builds one fresh entry for a coalesced run: its usage bytes, with the
/// metadata pages marked, and its counters.
fn build_entry(a: MemoryArea) -> (e: BuddyEntry)
    requires
        a.size > 0,
        a.size % PAGE_SIZE == 0,
        a.base.spec_data() % PAGE_SIZE == 0,
        a.spec_end() <= PHYS_LIMIT,
        a.size <= usize::MAX,
    ensures
        e.wf(),
        entry_fresh(e),
        e.spec_base() == a.base.spec_data(),
        e.spec_size() == a.size,
        e.spec_end() == a.spec_end(),
        e.spec_pages() * PAGE_SIZE == a.size,
    decreases 0int,
{
    let pages = a.size / PAGE_SIZE;
    let up = (pages + PAGE_OFFSET_MASK) / PAGE_SIZE;
    proof {
        assert(1 <= up <= pages && pages * PAGE_SIZE == a.size) by (nonlinear_arith)
            requires
                a.size > 0,
                a.size % PAGE_SIZE == 0,
                a.size <= PHYS_LIMIT,
                pages == a.size / PAGE_SIZE,
                up == (pages + PAGE_OFFSET_MASK) / (PAGE_SIZE as int),
                PAGE_SIZE == 0x1000,
                PAGE_OFFSET_MASK == 0xFFF,
                PHYS_LIMIT == 0x8000_0000_0000,
        {}
    }
    let mut usage: Vec<u8> = Vec::new();
    let mut p: u64 = 0;
    while p < pages
        invariant
            p <= pages,
            up <= pages,
            usage@.len() == p,
            forall|t: int| 0 <= t < p ==> ((#[trigger] usage@[t]) != 0 <==> t < up),
            count_ones(usage@) == if p <= up {
                p as int
            } else {
                up as int
            },
        decreases pages - p,
    {
        let b: u8 = if p < up {
            1
        } else {
            0
        };
        proof {
            lemma_count_ones_push(usage@, b);
        }
        usage.push(b);
        p = p + 1;
    }
    BuddyEntry { base: a.base, size: a.size, skip: up, used: up, usage }
}

/// Builds the fresh entry table for the coalesced runs, one entry per
/// run, in order.
#[verifier::rlimit(100)]
fn build_entries(runs: &Vec<MemoryArea>) -> (entries: Vec<BuddyEntry>)
    requires
        areas_wf(runs@),
        areas_total_size(runs@) <= usize::MAX,
    ensures
        entries@.len() == runs@.len(),
        forall|j: int| 0 <= j < entries@.len() ==> (#[trigger] entries@[j]).wf(),
        forall|j: int| 0 <= j < entries@.len() ==> entry_fresh(#[trigger] entries@[j]),
        forall|j: int|
            0 <= j < entries@.len() ==> (#[trigger] entries@[j]).spec_base()
                == runs@[j].base.spec_data() && entries@[j].spec_end() == runs@[j].spec_end(),
        sum_pages(entries@) * PAGE_SIZE == areas_total_size(runs@),
{
    let ghost runsg = runs@;
    let mut entries: Vec<BuddyEntry> = Vec::new();
    let mut k: usize = 0;
    proof {
        assert(crate::areas_prefix_size(runsg, 0) == 0);
        assert(sum_pages(entries@) == 0);
    }
    while k < runs.len()
        invariant
            areas_wf(runsg),
            runs@ == runsg,
            areas_total_size(runsg) <= usize::MAX,
            k <= runsg.len(),
            entries@.len() == k,
            forall|j: int| 0 <= j < k ==> (#[trigger] entries@[j]).wf(),
            forall|j: int| 0 <= j < k ==> entry_fresh(#[trigger] entries@[j]),
            forall|j: int|
                0 <= j < k ==> (#[trigger] entries@[j]).spec_base() == runsg[j].base.spec_data()
                    && entries@[j].spec_end() == runsg[j].spec_end(),
            sum_pages(entries@) * PAGE_SIZE == crate::areas_prefix_size(runsg, k as int),
        decreases runsg.len() - k,
    {
        let a = runs[k];
        proof {
            assert(runsg[k as int].size > 0 && runsg[k as int].spec_end() <= PHYS_LIMIT && runsg[
                k as int].size % PAGE_SIZE == 0);
            lemma_prefix_mono_areas(runsg, k as int + 1);
            lemma_prefix_nonneg(runsg, k as int);
            assert(crate::areas_prefix_size(runsg, k as int + 1) == crate::areas_prefix_size(
                runsg,
                k as int,
            ) + runsg[k as int].size);
            assert(a.size <= areas_total_size(runsg));
        }
        let e = build_entry(a);
        proof {
            lemma_sum_pages_push(entries@, e);
        }
        entries.push(e);
        k = k + 1;
    }
    proof {
        assert(runsg.take(runsg.len() as int) =~= runsg);
    }
    entries
}

impl BuddyAllocator {
    /// Builds the steady-state allocator by consuming the bootstrap bump
    /// allocator: the unconsumed remainder of each bootstrap region is
    /// re-derived from the bump cursor and inserted in order, coalescing
    /// a region that extends the previously inserted one into the same
    /// entry. Construction fails (returns nothing) only when the
    /// coalesced regions outnumber the entry table's capacity. Each
    /// entry then reserves its leading pages for the per-page usage
    /// bytes: they are marked used and counted in `used` from the start.
    #[verifier::rlimit(100)]
    #[verifier::spinoff_prover]
    pub fn new(bump_allocator: BumpAllocator) -> (r: Option<BuddyAllocator>)
        requires
            bump_allocator.inv(),
            areas_total_size(bump_allocator.spec_areas()) <= usize::MAX,
        ensures
            ({
                let rem = remainders(
                    bump_allocator.spec_areas(),
                    bump_allocator.spec_offset() as int,
                );
                &&& (r is Some <==> runs_of(rem) <= BUDDY_ENTRIES)
                &&& r matches Some(b) ==> {
                    &&& b.inv()
                    &&& b.spec_entries().len() == runs_of(rem)
                    &&& forall|k: int|
                        0 <= k < b.spec_entries().len() ==> entry_fresh(
                            #[trigger] b.spec_entries()[k],
                        )
                    &&& sum_pages(b.spec_entries()) == (areas_total_size(
                        bump_allocator.spec_areas(),
                    ) - bump_allocator.spec_offset()) / (PAGE_SIZE as int)
                    &&& forall|k: int|
                        0 <= k < b.spec_entries().len() ==> (
                        #[trigger] b.spec_entries()[k]).spec_base() == runs_seq(
                            rem,
                            rem.len() as int,
                        )[k].0 && b.spec_entries()[k].spec_end() == runs_seq(
                            rem,
                            rem.len() as int,
                        )[k].1
                }
            }),
    {
        let ghost areas0 = bump_allocator.spec_areas();
        let ghost off0 = bump_allocator.spec_offset() as int;
        proof {
            lemma_remainders_wf(areas0, off0);
        }
        let offset = bump_allocator.offset();
        let rem = derive_remainders(bump_allocator.areas(), offset);
        let ghost remg = remainders(areas0, off0);
        let runs = match coalesce_runs(&rem) {
            None => {
                return None;
            },
            Some(runs) => runs,
        };
        let entries = build_entries(&runs);
        proof {
            let total = areas_total_size(runs@);
            assert(sum_pages(entries@) == total / (PAGE_SIZE as int)) by (nonlinear_arith)
                requires
                    sum_pages(entries@) * PAGE_SIZE == total,
                    total >= 0,
                    PAGE_SIZE == 0x1000,
            {}
            assert forall|j: int| 0 <= j && j + 1 < entries@.len() implies (
            #[trigger] entries@[j]).spec_end() < entries@[j + 1].spec_base() by {
                assert(runs@[j].spec_end() < runs@[j + 1].base.spec_data());
            }
            assert forall|k: int|
                0 <= k < entries@.len() implies (#[trigger] entries@[k]).spec_base() == runs_seq(
                remg,
                remg.len() as int,
            )[k].0 && entries@[k].spec_end() == runs_seq(remg, remg.len() as int)[k].1 by {
                assert(runs@[k].base.spec_data() == runs_seq(remg, remg.len() as int)[k].0);
            }
        }
        Some(BuddyAllocator { entries })
    }
}

proof fn lemma_prefix_agree(s: Seq<MemoryArea>, t: Seq<MemoryArea>, n: int)
    requires
        0 <= n <= s.len(),
        n <= t.len(),
        forall|i: int| 0 <= i < n ==> s[i] == t[i],
    ensures
        crate::areas_prefix_size(s, n) == crate::areas_prefix_size(t, n),
    decreases n,
{
    if n > 0 {
        lemma_prefix_agree(s, t, n - 1);
    }
}

proof fn lemma_total_push(s: Seq<MemoryArea>, e: MemoryArea)
    ensures
        areas_total_size(s.push(e)) == areas_total_size(s) + e.size,
{
    lemma_prefix_agree(s.push(e), s, s.len() as int);
    assert(crate::areas_prefix_size(s.push(e), s.len() as int + 1) == crate::areas_prefix_size(
        s.push(e),
        s.len() as int,
    ) + e.size);
}

proof fn lemma_prefix_mono_areas(s: Seq<MemoryArea>, n: int)
    requires
        areas_wf(s),
        0 <= n <= s.len(),
    ensures
        crate::areas_prefix_size(s, n) <= areas_total_size(s),
        0 <= crate::areas_prefix_size(s, n),
    decreases s.len() - n,
{
    lemma_prefix_nonneg(s, n);
    if n < s.len() {
        lemma_prefix_mono_areas(s, n + 1);
        assert(s[n].size > 0);
    }
}

proof fn lemma_prefix_nonneg(s: Seq<MemoryArea>, n: int)
    requires
        areas_wf(s),
        0 <= n <= s.len(),
    ensures
        0 <= crate::areas_prefix_size(s, n),
    decreases n,
{
    if n > 0 {
        lemma_prefix_nonneg(s, n - 1);
        assert(s[n - 1].size > 0);
    }
}

/// `count` consecutive usage bytes starting at `s` are all free.
pub open spec fn run_free(usage: Seq<u8>, s: int, c: int) -> bool {
    forall|t: int| s <= t < s + c ==> (#[trigger] usage[t]) == 0
}

/// The least start position at or after `s` of a free run of `c` pages,
/// if any: the first-fit scan of one entry's usage bytes.
pub open spec fn fit_from(usage: Seq<u8>, s: int, c: int) -> Option<int>
    decreases usage.len() - s + 1,
{
    if !(0 <= s && s + c <= usage.len() && c >= 1) {
        None
    } else if run_free(usage, s, c) {
        Some(s)
    } else {
        fit_from(usage, s + 1, c)
    }
}

/// The first entry at or after `k` with a free run of `c` pages, together
/// with the least start inside it: the allocator's first-fit policy.
pub open spec fn buddy_fit(s: Seq<BuddyEntry>, k: int, c: int) -> Option<(int, int)>
    decreases s.len() - k + 1,
{
    if !(0 <= k < s.len()) {
        None
    } else {
        match fit_from(s[k].spec_usage(), s[k].spec_skip() as int, c) {
            Some(start) => Some((k, start)),
            None => buddy_fit(s, k + 1, c),
        }
    }
}

/// `post` is `pre` with the `c` pages from `start` marked used.
pub open spec fn entry_marked(pre: BuddyEntry, post: BuddyEntry, start: int, c: int) -> bool {
    &&& post.spec_base() == pre.spec_base()
    &&& post.spec_size() == pre.spec_size()
    &&& post.spec_skip() == pre.spec_skip()
    &&& post.spec_used() == pre.spec_used() + c
    &&& post.spec_usage().len() == pre.spec_usage().len()
    &&& forall|t: int|
        0 <= t < post.spec_usage().len() ==> (#[trigger] post.spec_usage()[t]) == if start <= t
            < start + c {
            1u8
        } else {
            pre.spec_usage()[t]
        }
}

/// `post` is `pre` with the `c` pages from `start` cleared.
pub open spec fn entry_cleared(pre: BuddyEntry, post: BuddyEntry, start: int, c: int) -> bool {
    &&& post.spec_base() == pre.spec_base()
    &&& post.spec_size() == pre.spec_size()
    &&& post.spec_skip() == pre.spec_skip()
    &&& post.spec_used() == pre.spec_used() - c
    &&& post.spec_usage().len() == pre.spec_usage().len()
    &&& forall|t: int|
        0 <= t < post.spec_usage().len() ==> (#[trigger] post.spec_usage()[t]) == if start <= t
            < start + c {
            0u8
        } else {
            pre.spec_usage()[t]
        }
}

proof fn lemma_fit_from_step(usage: Seq<u8>, s: int, c: int)
    requires
        0 <= s,
        c >= 1,
        s + c <= usage.len() ==> !run_free(usage, s, c),
    ensures
        fit_from(usage, s, c) == fit_from(usage, s + 1, c),
{
}

proof fn lemma_fit_from_skip(usage: Seq<u8>, s: int, s2: int, c: int)
    requires
        0 <= s <= s2,
        c >= 1,
        forall|x: int| s <= x < s2 ==> (x + c <= usage.len() ==> !run_free(usage, x, c)),
    ensures
        fit_from(usage, s, c) == fit_from(usage, s2, c),
    decreases s2 - s,
{
    if s < s2 {
        lemma_fit_from_step(usage, s, c);
        lemma_fit_from_skip(usage, s + 1, s2, c);
    }
}

/// At least `b - a` bytes are nonzero when the whole range `[a, b)` is.
proof fn lemma_count_ones_range(s: Seq<u8>, a: int, b: int)
    requires
        0 <= a <= b <= s.len(),
        forall|t: int| a <= t < b ==> s[t] != 0,
    ensures
        count_ones(s) >= b - a,
    decreases s.len(),
{
    lemma_count_ones_bounds(s);
    if s.len() > 0 {
        if b == s.len() {
            if a < b {
                assert forall|t: int| a <= t < b - 1 implies s.drop_last()[t] != 0 by {
                    assert(s[t] != 0);
                }
                lemma_count_ones_range(s.drop_last(), a, b - 1);
                assert(s.last() == s[b - 1]);
                assert(s[b - 1] != 0);
            }
        } else {
            assert forall|t: int| a <= t < b implies s.drop_last()[t] != 0 by {
                assert(s[t] != 0);
            }
            lemma_count_ones_range(s.drop_last(), a, b);
        }
    }
}

impl BuddyEntry {
    /// First-fit scan of this entry's usage bytes, starting after the
    /// reserved metadata pages: the least start of `count` consecutive
    /// free pages, if the entry has one.
    fn find_fit(&self, count: u64) -> (r: Option<u64>)
        requires
            self.wf(),
            count >= 1,
        ensures
            r is None <==> fit_from(self.spec_usage(), self.spec_skip() as int, count as int)
                is None,
            r matches Some(start) ==> fit_from(
                self.spec_usage(),
                self.spec_skip() as int,
                count as int,
            ) == Some(start as int) && self.spec_skip() <= start && start + count
                <= self.spec_pages(),
    {
        let pages = self.usage.len();
        if count > pages as u64 {
            return None;
        }
        let c = count as usize;
        let skip = self.skip as usize;
        let mut start: usize = skip;
        while start <= pages - c
            invariant
                self.wf(),
                1 <= c <= pages,
                c == count,
                pages == self.spec_usage().len(),
                skip == self.spec_skip(),
                skip <= start,
                fit_from(self.spec_usage(), skip as int, c as int) == fit_from(
                    self.spec_usage(),
                    start as int,
                    c as int,
                ),
            decreases pages - start,
        {
            let mut t: usize = 0;
            while t < c && self.usage[start + t] == 0
                invariant
                    self.wf(),
                    start + c <= pages,
                    pages == self.spec_usage().len(),
                    t <= c,
                    forall|u: int| start <= u < start + t ==> (#[trigger] self.spec_usage()[u])
                        == 0,
                decreases c - t,
            {
                t = t + 1;
            }
            if t == c {
                proof {
                    assert(run_free(self.spec_usage(), start as int, c as int));
                }
                return Some(start as u64);
            }
            proof {
                assert(self.spec_usage()[start + t] != 0);
                assert forall|x: int|
                    start <= x < start + t + 1 implies (x + c <= self.spec_usage().len()
                    ==> !run_free(self.spec_usage(), x, c as int)) by {
                    if x + c <= self.spec_usage().len() {
                        assert(x <= start + t < x + c);
                        assert(self.spec_usage()[start + t] != 0);
                    }
                }
                lemma_fit_from_skip(
                    self.spec_usage(),
                    start as int,
                    start + t + 1,
                    c as int,
                );
            }
            start = start + t + 1;
        }
        None
    }

    /// Marks `count` free pages from `start` as used and counts them.
    #[verifier::loop_isolation(false)]
    fn mark_range(&mut self, start: u64, count: u64)
        requires
            old(self).wf(),
            count >= 1,
            old(self).spec_skip() <= start,
            start + count <= old(self).spec_pages(),
            run_free(old(self).spec_usage(), start as int, count as int),
        ensures
            final(self).wf(),
            entry_marked(*old(self), *final(self), start as int, count as int),
    {
        proof {
            lemma_count_ones_bounds(self.spec_usage());
        }
        let n = self.usage.len();
        proof {
            assert(start + count <= n);
        }
        let s = start as usize;
        let c = count as usize;
        let mut u: usize = 0;
        while u < c
            invariant
                s == start,
                c == count,
                s + c <= self.spec_usage().len(),
                u <= c,
                self.spec_usage().len() == old(self).spec_usage().len(),
                forall|t: int|
                    0 <= t < self.spec_usage().len() ==> (#[trigger] self.spec_usage()[t]) == if s
                        <= t < s + u {
                        1u8
                    } else {
                        old(self).spec_usage()[t]
                    },
                count_ones(self.spec_usage()) == count_ones(old(self).spec_usage()) + u,
                self.spec_base() == old(self).spec_base(),
                self.spec_size() == old(self).spec_size(),
                self.spec_skip() == old(self).spec_skip(),
                self.spec_used() == old(self).spec_used(),
            decreases c - u,
        {
            proof {
                assert(old(self).spec_usage()[s + u] == 0);
                assert(self.spec_usage()[s + u] == 0);
                lemma_count_ones_update(self.spec_usage(), s + u as int, 1u8);
            }
            self.usage[s + u] = 1;
            u = u + 1;
        }
        proof {
            lemma_count_ones_bounds(self.spec_usage());
            assert(old(self).spec_used() == count_ones(old(self).spec_usage()));
        }
        self.used = self.used + count;
    }

    /// Clears `count` used pages from `start` and uncounts them.
    #[verifier::loop_isolation(false)]
    fn clear_range(&mut self, start: u64, count: u64)
        requires
            old(self).wf(),
            count >= 1,
            old(self).spec_skip() <= start,
            start + count <= old(self).spec_pages(),
            forall|t: int|
                start <= t < start + count ==> (#[trigger] old(self).spec_usage()[t]) != 0,
        ensures
            final(self).wf(),
            entry_cleared(*old(self), *final(self), start as int, count as int),
    {
        proof {
            lemma_count_ones_bounds(self.spec_usage());
            lemma_count_ones_range(self.spec_usage(), start as int, start as int + count);
        }
        let n = self.usage.len();
        proof {
            assert(start + count <= n);
        }
        let s = start as usize;
        let c = count as usize;
        let mut u: usize = 0;
        while u < c
            invariant
                s == start,
                c == count,
                s + c <= self.spec_usage().len(),
                u <= c,
                self.spec_usage().len() == old(self).spec_usage().len(),
                forall|t: int|
                    0 <= t < self.spec_usage().len() ==> (#[trigger] self.spec_usage()[t]) == if s
                        <= t < s + u {
                        0u8
                    } else {
                        old(self).spec_usage()[t]
                    },
                count_ones(self.spec_usage()) == count_ones(old(self).spec_usage()) - u,
                self.spec_base() == old(self).spec_base(),
                self.spec_size() == old(self).spec_size(),
                self.spec_skip() == old(self).spec_skip(),
                self.spec_used() == old(self).spec_used(),
            decreases c - u,
        {
            proof {
                assert(old(self).spec_usage()[s + u] != 0);
                assert(self.spec_usage()[s + u] != 0);
                lemma_count_ones_update(self.spec_usage(), s + u as int, 0u8);
            }
            self.usage[s + u] = 0;
            u = u + 1;
        }
        proof {
            lemma_count_ones_bounds(self.spec_usage());
            assert(old(self).spec_used() == count_ones(old(self).spec_usage()));
            assert(old(self).spec_used() >= count) by {
                lemma_count_ones_range(
                    old(self).spec_usage(),
                    start as int,
                    start as int + count,
                );
            }
            assert forall|t: int| 0 <= t < old(self).spec_skip() implies self.spec_usage()[t]
                != 0 by {
                assert(old(self).spec_usage()[t] != 0);
            }
        }
        self.used = self.used - count;
    }
}

/// A mutable borrow of one entry of the table.
fn entry_mut(entries: &mut Vec<BuddyEntry>, k: usize) -> (e: &mut BuddyEntry)
    requires
        k < old(entries).len(),
    ensures
        *e == old(entries)@[k as int],
        final(entries)@ == old(entries)@.update(k as int, *final(e)),
{
    &mut entries[k]
}

proof fn lemma_fit_from_some(usage: Seq<u8>, s: int, c: int)
    ensures
        fit_from(usage, s, c) matches Some(st) ==> s <= st && st + c <= usage.len() && c >= 1
            && run_free(usage, st, c),
    decreases usage.len() - s + 1,
{
    if 0 <= s && s + c <= usage.len() && c >= 1 {
        if !run_free(usage, s, c) {
            lemma_fit_from_some(usage, s + 1, c);
        }
    }
}

impl FrameAllocator for BuddyAllocator {
    open spec fn wf(&self) -> bool {
        self.inv()
    }

    open spec fn pool(&self) -> Set<int> {
        Set::new(|p: int| p % (PAGE_SIZE as int) == 0 && in_entries(self.spec_entries(), p))
    }

    /// A page is allocated when its usage byte, inside the entry that
    /// covers it, is nonzero.
    open spec fn is_allocated(&self, p: int) -> bool {
        let s = self.spec_entries();
        &&& p % (PAGE_SIZE as int) == 0
        &&& in_entries(s, p)
        &&& s[entry_of(s, p)].spec_usage()[(p - s[entry_of(s, p)].spec_base()) / (
        PAGE_SIZE as int)] != 0
    }

    open spec fn used_count(&self) -> int {
        sum_used(self.spec_entries())
    }

    open spec fn total_count(&self) -> int {
        sum_pages(self.spec_entries())
    }

    /// Exactly the first-fit search: nothing changes on failure, and on
    /// success the first entry with a free run has its lowest such run
    /// marked, every other entry untouched.
    open spec fn alloc_post(&self, pre: Self, count: int, r: Option<PhysicalAddress>) -> bool {
        match buddy_fit(pre.spec_entries(), 0, count) {
            None => r is None && *self == pre,
            Some((k, start)) => {
                &&& r matches Some(p) && p.spec_data() == pre.spec_entries()[k].spec_base()
                    + start * PAGE_SIZE
                &&& self.spec_entries().len() == pre.spec_entries().len()
                &&& forall|j: int|
                    0 <= j < self.spec_entries().len() && j != k ==> (
                    #[trigger] self.spec_entries()[j]) == pre.spec_entries()[j]
                &&& self.spec_entries()[k].wf()
                &&& entry_marked(pre.spec_entries()[k], self.spec_entries()[k], start, count)
            },
        }
    }

    /// Freeing demands a page-aligned address inside some entry, a range
    /// past the reserved metadata pages and within the entry, and every
    /// page of it currently marked used; anything else is a kernel logic
    /// defect that the contract excludes.
    open spec fn free_pre(&self, address: PhysicalAddress, count: int) -> bool {
        let s = self.spec_entries();
        let p = address.spec_data() as int;
        &&& count >= 1
        &&& p % (PAGE_SIZE as int) == 0
        &&& in_entries(s, p)
        &&& ({
            let k = entry_of(s, p);
            let pg = (p - s[k].spec_base()) / (PAGE_SIZE as int);
            &&& s[k].spec_skip() <= pg
            &&& pg + count <= s[k].spec_pages()
            &&& forall|t: int| pg <= t < pg + count ==> (#[trigger] s[k].spec_usage()[t]) != 0
        })
    }

    /// Exactly the clearing of the freed run in its owning entry.
    open spec fn free_post(&self, pre: Self, address: PhysicalAddress, count: int) -> bool {
        let s = pre.spec_entries();
        let p = address.spec_data() as int;
        let k = entry_of(s, p);
        let pg = (p - s[k].spec_base()) / (PAGE_SIZE as int);
        &&& self.spec_entries().len() == s.len()
        &&& forall|j: int|
            0 <= j < s.len() && j != k ==> (#[trigger] self.spec_entries()[j]) == s[j]
        &&& self.spec_entries()[k].wf()
        &&& entry_cleared(s[k], self.spec_entries()[k], pg, count)
    }

    /// First-fit allocation of `count` contiguous pages: scans the
    /// entries in address order and each entry's usage bytes from just
    /// past its metadata pages, and takes the first free run.
    #[verifier::loop_isolation(false)]
    #[verifier::rlimit(100)]
    fn allocate(&mut self, count: FrameCount) -> (r: Option<PhysicalAddress>) {
        let c = count.data();
        let ghost pre = *self;
        let n = self.entries.len();
        let mut k: usize = 0;
        while k < n
            invariant
                *self == pre,
                k <= n,
                buddy_fit(pre.spec_entries(), 0, c as int) == buddy_fit(
                    pre.spec_entries(),
                    k as int,
                    c as int,
                ),
            decreases n - k,
        {
            proof {
                assert(self.spec_entries()[k as int].wf());
            }
            let fit = self.entries[k].find_fit(c);
            match fit {
                Some(start) => {
                    proof {
                        lemma_fit_from_some(
                            pre.spec_entries()[k as int].spec_usage(),
                            pre.spec_entries()[k as int].spec_skip() as int,
                            c as int,
                        );
                        assert(buddy_fit(pre.spec_entries(), k as int, c as int) == Some(
                            (k as int, start as int),
                        ));
                    }
                    let ghost olde = pre.spec_entries()[k as int];
                    let base = self.entries[k].base();
                    proof {
                        assert(olde.spec_pages() * PAGE_SIZE == olde.spec_size()
                            && (start + c) * PAGE_SIZE <= olde.spec_pages() * PAGE_SIZE
                            && start * PAGE_SIZE + c * PAGE_SIZE == (start + c) * PAGE_SIZE
                            && (base.spec_data() + start * PAGE_SIZE) % (PAGE_SIZE as int) == 0)
                            by (nonlinear_arith)
                            requires
                                olde.wf(),
                                base.spec_data() == olde.spec_base(),
                                start + c <= olde.spec_pages(),
                                olde.spec_pages() == olde.spec_size() as int / (PAGE_SIZE as int),
                                olde.spec_size() % PAGE_SIZE == 0,
                                olde.spec_base() % PAGE_SIZE == 0,
                                PAGE_SIZE == 0x1000,
                        {}
                    }
                    let addr = base.data() + start * PAGE_SIZE;
                    let e = entry_mut(&mut self.entries, k);
                    e.mark_range(start, c);
                    proof {
                        let s0 = pre.spec_entries();
                        let s1 = self.spec_entries();
                        assert(s1 == s0.update(k as int, s1[k as int]));
                        lemma_sum_update(s0, k as int, s1[k as int]);
                        assert forall|j: int| 0 <= j < s1.len() implies (#[trigger] s1[j]).wf()
                            && s1[j].spec_base() == s0[j].spec_base() && s1[j].spec_end()
                            == s0[j].spec_end() by {
                            if j != k {
                                assert(s1[j] == s0[j]);
                            }
                            assert(s0[j].wf());
                        }
                        assert(self.inv());
                        assert(self.pool() =~= pre.pool()) by {
                            assert forall|p: int|
                                in_entries(s1, p) == in_entries(s0, p) by {
                                if in_entries(s1, p) {
                                    let j = entry_of(s1, p);
                                    assert(s0[j].spec_base() <= p < s0[j].spec_end());
                                    assert(in_entries(s0, p));
                                }
                                if in_entries(s0, p) {
                                    let j = entry_of(s0, p);
                                    assert(s1[j].spec_base() <= p < s1[j].spec_end());
                                    assert(in_entries(s1, p));
                                }
                            }
                        }
                        let startp = olde.spec_base() + start * PAGE_SIZE;
                        assert forall|q: int|
                            startp <= q < startp + c * PAGE_SIZE && q % (PAGE_SIZE as int)
                                == 0 implies {
                            &&& pre.pool().contains(q)
                            &&& !pre.is_allocated(q)
                            &&& self.is_allocated(q)
                        } by {
                            let t = (q - olde.spec_base()) / (PAGE_SIZE as int);
                            assert(start <= t < start + c && t * (PAGE_SIZE as int) == q
                                - olde.spec_base()) by (nonlinear_arith)
                                requires
                                    q % (PAGE_SIZE as int) == 0,
                                    olde.spec_base() % PAGE_SIZE == 0,
                                    t == (q - olde.spec_base()) / (PAGE_SIZE as int),
                                    start * PAGE_SIZE <= q - olde.spec_base() < (start + c)
                                        * PAGE_SIZE,
                                    startp == olde.spec_base() + start * PAGE_SIZE,
                                    PAGE_SIZE == 0x1000,
                            {}
                            assert((start + c) * PAGE_SIZE <= olde.spec_pages() * PAGE_SIZE)
                                by (nonlinear_arith)
                                requires
                                    start + c <= olde.spec_pages(),
                                    PAGE_SIZE == 0x1000,
                            {}
                            assert(olde.spec_base() <= q < olde.spec_end());
                            lemma_entry_of(s0, q, k as int);
                            lemma_entry_of(s1, q, k as int);
                            assert(run_free(olde.spec_usage(), start as int, c as int));
                            assert(olde.spec_usage()[t] == 0);
                            assert(s1[k as int].spec_usage()[t] == 1);
                        }
                        assert forall|q: int| #[trigger]
                            pre.is_allocated(q) implies self.is_allocated(q) by {
                            let j = entry_of(s0, q);
                            assert(s0[j].spec_base() <= q < s0[j].spec_end());
                            lemma_entry_of(s1, q, j);
                            lemma_entry_of(s0, q, j);
                            let t = (q - s0[j].spec_base()) / (PAGE_SIZE as int);
                            if j == k {
                                if 0 <= t < s1[k as int].spec_usage().len() {
                                    assert(s1[k as int].spec_usage()[t] != 0);
                                }
                            } else {
                                assert(s1[j] == s0[j]);
                            }
                        }
                        assert((base.spec_data() + start * PAGE_SIZE) + c * PAGE_SIZE
                            <= olde.spec_end());
                    }
                    return Some(PhysicalAddress::new(addr));
                },
                None => {
                    proof {
                        assert(buddy_fit(pre.spec_entries(), k as int, c as int) == buddy_fit(
                            pre.spec_entries(),
                            k as int + 1,
                            c as int,
                        ));
                    }
                    k = k + 1;
                },
            }
        }
        proof {
            assert(buddy_fit(pre.spec_entries(), n as int, c as int) is None);
        }
        None
    }

    /// Returns a previously allocated run to the free pool, clearing its
    /// usage bytes in the owning entry.
    #[verifier::loop_isolation(false)]
    #[verifier::rlimit(100)]
    fn free(&mut self, address: PhysicalAddress, count: FrameCount) {
        let ghost pre = *self;
        let c = count.data();
        let a = address.data();
        let n = self.entries.len();
        let ghost s0 = pre.spec_entries();
        let ghost kk = entry_of(s0, address.spec_data() as int);
        proof {
            assert(0 <= kk < s0.len() && s0[kk].spec_base() <= address.spec_data()
                < s0[kk].spec_end());
        }
        let mut k: usize = 0;
        while k < n
            invariant
                *self == pre,
                k <= n,
                forall|j: int|
                    0 <= j < k ==> !((#[trigger] s0[j]).spec_base() <= address.spec_data()
                        < s0[j].spec_end()),
            decreases n - k,
        {
            proof {
                assert(s0[k as int].wf());
            }
            let base = self.entries[k].base();
            let size = self.entries[k].size();
            if base.data() <= a && a - base.data() < size {
                proof {
                    lemma_entry_of(s0, a as int, k as int);
                    assert(kk == k as int);
                }
                let pg = (a - base.data()) / PAGE_SIZE;
                proof {
                    assert(pg + c <= s0[k as int].spec_pages());
                    assert forall|t: int|
                        pg <= t < pg + c implies (#[trigger] s0[k as int].spec_usage()[t])
                        != 0 by {}
                }
                let e = entry_mut(&mut self.entries, k);
                e.clear_range(pg, c);
                proof {
                    let s1 = self.spec_entries();
                    assert(s1 == s0.update(k as int, s1[k as int]));
                    lemma_sum_update(s0, k as int, s1[k as int]);
                    assert forall|j: int| 0 <= j < s1.len() implies (#[trigger] s1[j]).wf()
                        && s1[j].spec_base() == s0[j].spec_base() && s1[j].spec_end()
                        == s0[j].spec_end() by {
                        if j != k {
                            assert(s1[j] == s0[j]);
                        }
                        assert(s0[j].wf());
                    }
                    assert(self.inv());
                    assert(self.pool() =~= pre.pool()) by {
                        assert forall|p: int| in_entries(s1, p) == in_entries(s0, p) by {
                            if in_entries(s1, p) {
                                let j = entry_of(s1, p);
                                assert(s0[j].spec_base() <= p < s0[j].spec_end());
                                assert(in_entries(s0, p));
                            }
                            if in_entries(s0, p) {
                                let j = entry_of(s0, p);
                                assert(s1[j].spec_base() <= p < s1[j].spec_end());
                                assert(in_entries(s1, p));
                            }
                        }
                    }
                    assert forall|q: int| #[trigger]
                        self.is_allocated(q) implies pre.is_allocated(q) by {
                        let j = entry_of(s1, q);
                        assert(s1[j].spec_base() <= q < s1[j].spec_end());
                        assert(s0[j].spec_base() <= q < s0[j].spec_end());
                        lemma_entry_of(s1, q, j);
                        lemma_entry_of(s0, q, j);
                        let t = (q - s0[j].spec_base()) / (PAGE_SIZE as int);
                        if j == k {
                            if 0 <= t < s0[k as int].spec_usage().len() {
                                assert(s1[k as int].spec_usage()[t] != 0);
                                assert(s0[k as int].spec_usage()[t] != 0);
                            }
                        } else {
                            assert(s1[j] == s0[j]);
                        }
                    }
                }
                return;
            }
            k = k + 1;
        }
        proof {
            assert(false);
        }
    }

    /// Sums the entries' accounting: `total` is every tracked page,
    /// `used` includes both client allocations and the permanently
    /// reserved metadata pages.
    #[verifier::loop_isolation(false)]
    fn usage(&self) -> (r: FrameUsage) {
        let n = self.entries.len();
        let mut used_acc: u64 = 0;
        let mut pages_acc: u64 = 0;
        let mut k: usize = 0;
        proof {
            assert(self.spec_entries().take(0) =~= Seq::<BuddyEntry>::empty());
        }
        while k < n
            invariant
                k <= n,
                used_acc == sum_used(self.spec_entries().take(k as int)),
                pages_acc == sum_pages(self.spec_entries().take(k as int)),
                0 <= used_acc <= pages_acc,
                pages_acc * PAGE_SIZE <= PHYS_LIMIT,
                k > 0 ==> pages_acc * PAGE_SIZE <= self.spec_entries()[k as int - 1].spec_end(),
            decreases n - k,
        {
            let ghost s = self.spec_entries();
            proof {
                assert(s[k as int].wf());
                assert(s.take(k as int + 1).drop_last() =~= s.take(k as int));
                assert(s.take(k as int + 1).last() == s[k as int]);
                lemma_count_ones_bounds(s[k as int].spec_usage());
                assert(s[k as int].spec_pages() * PAGE_SIZE == s[k as int].spec_size())
                    by (nonlinear_arith)
                    requires
                        s[k as int].spec_size() % PAGE_SIZE == 0,
                        s[k as int].spec_pages() == s[k as int].spec_size() as int / (
                        PAGE_SIZE as int),
                        PAGE_SIZE == 0x1000,
                {}
                if k > 0 {
                    assert(s[k as int - 1].spec_end() < s[k as int].spec_base());
                }
                assert((pages_acc + s[k as int].spec_pages()) * PAGE_SIZE == pages_acc * PAGE_SIZE
                    + s[k as int].spec_pages() * PAGE_SIZE) by (nonlinear_arith)
                {}
            }
            used_acc = used_acc + self.entries[k].used();
            pages_acc = pages_acc + self.entries[k].pages();
            k = k + 1;
        }
        proof {
            assert(self.spec_entries().take(n as int) =~= self.spec_entries());
        }
        FrameUsage::new(FrameCount::new(used_acc), FrameCount::new(pages_acc))
    }
}

proof fn lemma_buddy_fit_some(s: Seq<BuddyEntry>, k0: int, c: int)
    ensures
        buddy_fit(s, k0, c) matches Some(f) ==> k0 <= f.0 < s.len() && fit_from(
            s[f.0].spec_usage(),
            s[f.0].spec_skip() as int,
            c,
        ) == Some(f.1),
    decreases s.len() - k0 + 1,
{
    if 0 <= k0 < s.len() {
        if fit_from(s[k0].spec_usage(), s[k0].spec_skip() as int, c) is None {
            lemma_buddy_fit_some(s, k0 + 1, c);
        }
    }
}

/// Everything a successful allocation implies, stated over the model: the
/// table invariant is preserved, the result names a run past the owning
/// entry's metadata pages that was free before and is allocated after,
/// every page outside the run keeps its state, and the used count grows
/// by exactly the request.
pub proof fn lemma_alloc_post_props(
    pre: BuddyAllocator,
    post: BuddyAllocator,
    count: int,
    p: PhysicalAddress,
)
    requires
        pre.inv(),
        count >= 1,
        post.alloc_post(pre, count, Some(p)),
    ensures
        post.inv(),
        post.spec_entries().len() == pre.spec_entries().len(),
        post.used_count() == pre.used_count() + count,
        post.total_count() == pre.total_count(),
        p.spec_data() % PAGE_SIZE == 0,
        forall|q: int|
            p.spec_data() <= q < p.spec_data() + count * PAGE_SIZE && q % (PAGE_SIZE as int)
                == 0 ==> !(#[trigger] pre.is_allocated(q)) && post.is_allocated(q),
        forall|q: int|
            !(p.spec_data() <= q < p.spec_data() + count * PAGE_SIZE) ==> (
            #[trigger] post.is_allocated(q)) == pre.is_allocated(q),
{
    let s0 = pre.spec_entries();
    let s1 = post.spec_entries();
    let f = buddy_fit(s0, 0, count).unwrap();
    let k = f.0;
    let start = f.1;
    lemma_buddy_fit_some(s0, 0, count);
    lemma_fit_from_some(s0[k].spec_usage(), s0[k].spec_skip() as int, count);
    let e0 = s0[k];
    let e1 = s1[k];
    assert(e0.wf());
    assert(s1 == s0.update(k, e1)) by {
        assert(s1 =~= s0.update(k, e1));
    }
    lemma_sum_update(s0, k, e1);
    assert forall|j: int| 0 <= j < s1.len() implies (#[trigger] s1[j]).wf() && s1[j].spec_base()
        == s0[j].spec_base() && s1[j].spec_end() == s0[j].spec_end() by {
        if j != k {
            assert(s1[j] == s0[j]);
        }
        assert(s0[j].wf());
    }
    assert(post.inv());
    assert(e0.spec_pages() * PAGE_SIZE == e0.spec_size() && start * PAGE_SIZE + count * PAGE_SIZE
        == (start + count) * PAGE_SIZE && (start + count) * PAGE_SIZE <= e0.spec_pages()
        * PAGE_SIZE && (e0.spec_base() + start * PAGE_SIZE) % (PAGE_SIZE as int) == 0)
        by (nonlinear_arith)
        requires
            e0.spec_size() % PAGE_SIZE == 0,
            e0.spec_base() % PAGE_SIZE == 0,
            e0.spec_pages() == e0.spec_size() as int / (PAGE_SIZE as int),
            start + count <= e0.spec_pages(),
            PAGE_SIZE == 0x1000,
    {}
    let startp = e0.spec_base() + start * PAGE_SIZE;
    assert(p.spec_data() == startp);
    assert forall|q: int|
        startp <= q < startp + count * PAGE_SIZE && q % (PAGE_SIZE as int) == 0 implies !(
    #[trigger] pre.is_allocated(q)) && post.is_allocated(q) by {
        let t = (q - e0.spec_base()) / (PAGE_SIZE as int);
        assert(start <= t < start + count && t * (PAGE_SIZE as int) == q - e0.spec_base())
            by (nonlinear_arith)
            requires
                q % (PAGE_SIZE as int) == 0,
                e0.spec_base() % PAGE_SIZE == 0,
                t == (q - e0.spec_base()) / (PAGE_SIZE as int),
                start * PAGE_SIZE <= q - e0.spec_base() < (start + count) * PAGE_SIZE,
                PAGE_SIZE == 0x1000,
        {}
        assert(e0.spec_base() <= q < e0.spec_end());
        lemma_entry_of(s0, q, k);
        lemma_entry_of(s1, q, k);
        assert(e0.spec_usage()[t] == 0);
        assert(e1.spec_usage()[t] == 1);
    }
    assert forall|q: int|
        !(startp <= q < startp + count * PAGE_SIZE) implies (#[trigger] post.is_allocated(q))
        == pre.is_allocated(q) by {
        if q % (PAGE_SIZE as int) == 0 && in_entries(s0, q) {
            let j = entry_of(s0, q);
            assert(s0[j].spec_base() <= q < s0[j].spec_end());
            lemma_entry_of(s0, q, j);
            lemma_entry_of(s1, q, j);
            if j == k {
                let t = (q - e0.spec_base()) / (PAGE_SIZE as int);
                assert(!(start <= t < start + count) && t * (PAGE_SIZE as int) == q
                    - e0.spec_base() && 0 <= t < e0.spec_pages()) by (nonlinear_arith)
                    requires
                        q % (PAGE_SIZE as int) == 0,
                        e0.spec_base() % PAGE_SIZE == 0,
                        t == (q - e0.spec_base()) / (PAGE_SIZE as int),
                        e0.spec_base() <= q < e0.spec_end(),
                        !(startp <= q < startp + count * PAGE_SIZE),
                        startp == e0.spec_base() + start * PAGE_SIZE,
                        e0.spec_pages() * PAGE_SIZE == e0.spec_size(),
                        PAGE_SIZE == 0x1000,
                {}
                assert(e1.spec_usage()[t] == e0.spec_usage()[t]);
            } else {
                assert(s1[j] == s0[j]);
            }
        } else {
            if q % (PAGE_SIZE as int) == 0 && in_entries(s1, q) {
                let j = entry_of(s1, q);
                assert(s0[j].spec_base() <= q < s0[j].spec_end());
                assert(in_entries(s0, q));
            }
        }
    }
}

/// Everything a free implies, stated over the model: the invariant is
/// preserved, every page of the freed run is free afterwards, every page
/// outside it keeps its state, and the used count shrinks by exactly the
/// request.
pub proof fn lemma_free_post_props(
    pre: BuddyAllocator,
    post: BuddyAllocator,
    address: PhysicalAddress,
    count: int,
)
    requires
        pre.inv(),
        pre.free_pre(address, count),
        post.free_post(pre, address, count),
    ensures
        post.inv(),
        post.spec_entries().len() == pre.spec_entries().len(),
        post.used_count() == pre.used_count() - count,
        post.total_count() == pre.total_count(),
        forall|q: int|
            address.spec_data() <= q < address.spec_data() + count * PAGE_SIZE ==> !(
            #[trigger] post.is_allocated(q)),
        forall|q: int|
            !(address.spec_data() <= q < address.spec_data() + count * PAGE_SIZE) ==> (
            #[trigger] post.is_allocated(q)) == pre.is_allocated(q),
{
    let s0 = pre.spec_entries();
    let s1 = post.spec_entries();
    let a = address.spec_data() as int;
    let k = entry_of(s0, a);
    assert(0 <= k < s0.len() && s0[k].spec_base() <= a < s0[k].spec_end());
    let e0 = s0[k];
    let e1 = s1[k];
    let pg = (a - e0.spec_base()) / (PAGE_SIZE as int);
    assert(e0.wf());
    assert(s1 == s0.update(k, e1)) by {
        assert(s1 =~= s0.update(k, e1));
    }
    lemma_sum_update(s0, k, e1);
    assert forall|j: int| 0 <= j < s1.len() implies (#[trigger] s1[j]).wf() && s1[j].spec_base()
        == s0[j].spec_base() && s1[j].spec_end() == s0[j].spec_end() by {
        if j != k {
            assert(s1[j] == s0[j]);
        }
        assert(s0[j].wf());
    }
    assert(post.inv());
    assert(pg * (PAGE_SIZE as int) == a - e0.spec_base() && (e0.spec_base() + pg * PAGE_SIZE) % (
    PAGE_SIZE as int) == 0 && e0.spec_pages() * PAGE_SIZE == e0.spec_size() && pg * PAGE_SIZE
        + count * PAGE_SIZE == (pg + count) * PAGE_SIZE && (pg + count) * PAGE_SIZE
        <= e0.spec_pages() * PAGE_SIZE) by (nonlinear_arith)
        requires
            a % (PAGE_SIZE as int) == 0,
            e0.spec_base() % PAGE_SIZE == 0,
            e0.spec_base() <= a,
            pg == (a - e0.spec_base()) / (PAGE_SIZE as int),
            pg + count <= e0.spec_pages(),
            e0.spec_size() % PAGE_SIZE == 0,
            e0.spec_pages() == e0.spec_size() as int / (PAGE_SIZE as int),
            PAGE_SIZE == 0x1000,
    {}
    assert forall|q: int| a <= q < a + count * PAGE_SIZE implies !(#[trigger] post.is_allocated(
        q,
    )) by {
        if q % (PAGE_SIZE as int) == 0 && in_entries(s1, q) {
            let t = (q - e0.spec_base()) / (PAGE_SIZE as int);
            assert(pg <= t < pg + count && t * (PAGE_SIZE as int) == q - e0.spec_base())
                by (nonlinear_arith)
                requires
                    q % (PAGE_SIZE as int) == 0,
                    e0.spec_base() % PAGE_SIZE == 0,
                    t == (q - e0.spec_base()) / (PAGE_SIZE as int),
                    pg * PAGE_SIZE <= q - e0.spec_base() < (pg + count) * PAGE_SIZE,
                    a - e0.spec_base() == pg * PAGE_SIZE,
                    PAGE_SIZE == 0x1000,
            {}
            assert(e0.spec_base() <= q < e0.spec_end());
            lemma_entry_of(s1, q, k);
            assert(e1.spec_usage()[t] == 0);
        }
    }
    assert forall|q: int|
        !(a <= q < a + count * PAGE_SIZE) implies (#[trigger] post.is_allocated(q))
        == pre.is_allocated(q) by {
        if q % (PAGE_SIZE as int) == 0 && in_entries(s0, q) {
            let j = entry_of(s0, q);
            assert(s0[j].spec_base() <= q < s0[j].spec_end());
            lemma_entry_of(s0, q, j);
            lemma_entry_of(s1, q, j);
            if j == k {
                let t = (q - e0.spec_base()) / (PAGE_SIZE as int);
                assert(!(pg <= t < pg + count) && t * (PAGE_SIZE as int) == q - e0.spec_base()
                    && 0 <= t < e0.spec_pages()) by (nonlinear_arith)
                    requires
                        q % (PAGE_SIZE as int) == 0,
                        e0.spec_base() % PAGE_SIZE == 0,
                        t == (q - e0.spec_base()) / (PAGE_SIZE as int),
                        e0.spec_base() <= q < e0.spec_end(),
                        !(a <= q < a + count * PAGE_SIZE),
                        a - e0.spec_base() == pg * PAGE_SIZE,
                        e0.spec_pages() * PAGE_SIZE == e0.spec_size(),
                        PAGE_SIZE == 0x1000,
                {}
                assert(e1.spec_usage()[t] == e0.spec_usage()[t]);
            } else {
                assert(s1[j] == s0[j]);
            }
        } else {
            if q % (PAGE_SIZE as int) == 0 && in_entries(s1, q) {
                let j = entry_of(s1, q);
                assert(s0[j].spec_base() <= q < s0[j].spec_end());
                assert(in_entries(s0, q));
            }
        }
    }
}

/// Law: allocate/free round trip. Allocating `count` pages and then
/// immediately freeing the returned run restores the used count and the
/// allocation state of every page to exactly what they were before.
pub proof fn lemma_allocate_free_round_trip(
    s0: BuddyAllocator,
    s1: BuddyAllocator,
    s2: BuddyAllocator,
    p: PhysicalAddress,
    count: int,
)
    requires
        s0.inv(),
        count >= 1,
        s1.alloc_post(s0, count, Some(p)),
        s1.free_pre(p, count),
        s2.free_post(s1, p, count),
    ensures
        s2.used_count() == s0.used_count(),
        s2.total_count() == s0.total_count(),
        forall|q: int| #[trigger] s2.is_allocated(q) == s0.is_allocated(q),
{
    lemma_alloc_post_props(s0, s1, count, p);
    lemma_free_post_props(s1, s2, p, count);
    assert forall|q: int| #[trigger] s2.is_allocated(q) == s0.is_allocated(q) by {
        if p.spec_data() <= q < p.spec_data() + count * PAGE_SIZE {
            assert(!s2.is_allocated(q));
            if q % (PAGE_SIZE as int) == 0 {
                assert(!s0.is_allocated(q));
            } else {
                assert(!s0.is_allocated(q));
            }
        }
    }
}

/// Law: the used count never goes below zero nor above the total, so the
/// derived free count stays within `[0, total]` in every reachable state.
pub proof fn lemma_usage_bounds(b: BuddyAllocator)
    requires
        b.inv(),
    ensures
        0 <= b.used_count() <= b.total_count(),
{
    lemma_sum_used_le_pages(b.spec_entries());
}

proof fn lemma_sum_used_le_pages(s: Seq<BuddyEntry>)
    requires
        forall|k: int| 0 <= k < s.len() ==> (#[trigger] s[k]).wf(),
    ensures
        0 <= sum_used(s) <= sum_pages(s),
    decreases s.len(),
{
    if s.len() > 0 {
        assert forall|k: int| 0 <= k < s.drop_last().len() implies (
        #[trigger] s.drop_last()[k]).wf() by {
            assert(s[k].wf());
        }
        lemma_sum_used_le_pages(s.drop_last());
        assert(s[s.len() - 1].wf());
        lemma_count_ones_bounds(s.last().spec_usage());
    }
}

/// Law: no double allocation. Two consecutive allocations that both
/// succeed, with nothing freed in between, return runs that do not even
/// overlap — in particular their base addresses differ.
pub proof fn lemma_no_double_allocation(
    s0: BuddyAllocator,
    s1: BuddyAllocator,
    s2: BuddyAllocator,
    p1: PhysicalAddress,
    p2: PhysicalAddress,
    c1: int,
    c2: int,
)
    requires
        s0.inv(),
        c1 >= 1,
        c2 >= 1,
        s1.alloc_post(s0, c1, Some(p1)),
        s2.alloc_post(s1, c2, Some(p2)),
    ensures
        p1.spec_data() != p2.spec_data(),
        p1.spec_data() + c1 * PAGE_SIZE <= p2.spec_data() || p2.spec_data() + c2 * PAGE_SIZE
            <= p1.spec_data(),
{
    lemma_alloc_post_props(s0, s1, c1, p1);
    lemma_alloc_post_props(s1, s2, c2, p2);
    assert(c1 * PAGE_SIZE >= PAGE_SIZE && c2 * PAGE_SIZE >= PAGE_SIZE) by (nonlinear_arith)
        requires
            c1 >= 1,
            c2 >= 1,
            PAGE_SIZE == 0x1000,
    {}
    if !(p1.spec_data() + c1 * PAGE_SIZE <= p2.spec_data() || p2.spec_data() + c2 * PAGE_SIZE
        <= p1.spec_data()) {
        let w: int = if p1.spec_data() >= p2.spec_data() {
            p1.spec_data() as int
        } else {
            p2.spec_data() as int
        };
        assert(p1.spec_data() <= w < p1.spec_data() + c1 * PAGE_SIZE);
        assert(p2.spec_data() <= w < p2.spec_data() + c2 * PAGE_SIZE);
        assert(w % (PAGE_SIZE as int) == 0);
        assert(!s0.is_allocated(w) && s1.is_allocated(w));
        assert(!s1.is_allocated(w) && s2.is_allocated(w));
    }
}

/// Law: metadata self-consistency. In every well-formed state, each
/// entry reserves exactly one page per `PAGE_SIZE` pages it covers
/// (rounded up), those reserved pages are marked used, and they are
/// counted in `used`.
pub proof fn lemma_metadata_self_consistency(b: BuddyAllocator, k: int)
    requires
        b.inv(),
        0 <= k < b.spec_entries().len(),
    ensures
        b.spec_entries()[k].spec_skip() == (b.spec_entries()[k].spec_pages() + PAGE_OFFSET_MASK)
            / (PAGE_SIZE as int),
        forall|i: int|
            0 <= i < b.spec_entries()[k].spec_skip() ==> b.spec_entries()[k].spec_usage()[i] != 0,
        b.spec_entries()[k].spec_used() >= b.spec_entries()[k].spec_skip(),
{
    assert(b.spec_entries()[k].wf());
    lemma_count_ones_lower(
        b.spec_entries()[k].spec_usage(),
        b.spec_entries()[k].spec_skip() as int,
    );
}

/// Law: a chain of pairwise physically adjacent regions coalesces into
/// exactly one entry of the table, and that entry covers exactly their
/// union, from the first region's base to the last region's end.
pub proof fn lemma_adjacent_regions_coalesce(s: Seq<MemoryArea>)
    requires
        s.len() >= 1,
        forall|i: int|
            0 <= i < s.len() - 1 ==> (#[trigger] s[i]).spec_end() == s[i + 1].base.spec_data(),
    ensures
        runs_of(s) == 1,
        runs_seq(s, s.len() as int) == seq![
            (s[0].base.spec_data() as int, s[s.len() - 1].spec_end()),
        ],
{
    lemma_runs_prefix_adjacent(s, s.len() as int);
}

proof fn lemma_runs_prefix_adjacent(s: Seq<MemoryArea>, n: int)
    requires
        1 <= n <= s.len(),
        forall|i: int|
            0 <= i < s.len() - 1 ==> (#[trigger] s[i]).spec_end() == s[i + 1].base.spec_data(),
    ensures
        runs_prefix(s, n) == 1,
        runs_seq(s, n) == seq![(s[0].base.spec_data() as int, s[n - 1].spec_end())],
    decreases n,
{
    if n == 1 {
        assert(runs_seq(s, 1) =~= seq![(s[0].base.spec_data() as int, s[0].spec_end())]);
    } else {
        lemma_runs_prefix_adjacent(s, n - 1);
        assert(s[n - 2].spec_end() == s[n - 1].base.spec_data());
        assert(runs_seq(s, n) =~= seq![(s[0].base.spec_data() as int, s[n - 1].spec_end())]);
    }
}

} // verus!
