use mm::BuddyAllocator;
use mm::BumpAllocator;
use mm::FrameAllocator;
use mm::FrameCount;
use mm::MemoryArea;
use mm::PAGE_SIZE;
use mm::PhysicalAddress;

fn area(base: u64, size: u64) -> MemoryArea {
    MemoryArea { base: PhysicalAddress::new(base), size }
}

#[test]
fn bump_allocates_in_order() {
    let areas = vec![area(0x1000, 4 * PAGE_SIZE)];
    let mut bump = BumpAllocator::new(areas, 0);
    let a = bump.allocate_one().unwrap();
    let b = bump.allocate_one().unwrap();
    assert_eq!(a.data(), 0x1000);
    assert_eq!(b.data(), 0x1000 + PAGE_SIZE);
    assert_eq!(bump.offset(), 2 * PAGE_SIZE);
}

#[test]
fn bump_spans_region_boundaries() {
    let areas = vec![area(0x1000, PAGE_SIZE), area(0x10000, PAGE_SIZE)];
    let mut bump = BumpAllocator::new(areas, 0);
    let a = bump.allocate_one().unwrap();
    let b = bump.allocate_one().unwrap();
    assert_eq!(a.data(), 0x1000);
    assert_eq!(b.data(), 0x10000);
    assert!(bump.allocate_one().is_none());
}

#[test]
fn bump_skips_tail_too_small_for_request() {
    let areas = vec![area(0x1000, 2 * PAGE_SIZE), area(0x10000, 4 * PAGE_SIZE)];
    let mut bump = BumpAllocator::new(areas, 0);
    // Three pages do not fit the first region: the request comes from the
    // second, and the first region's tail is consumed forever.
    let a = bump.allocate(FrameCount::new(3)).unwrap();
    assert_eq!(a.data(), 0x10000);
    let b = bump.allocate_one().unwrap();
    assert_eq!(b.data(), 0x10000 + 3 * PAGE_SIZE);
    assert!(bump.allocate_one().is_none());
}

#[test]
fn bump_free_is_a_no_op() {
    let areas = vec![area(0x1000, 2 * PAGE_SIZE)];
    let mut bump = BumpAllocator::new(areas, 0);
    let a = bump.allocate_one().unwrap();
    bump.free_one(a);
    let usage = bump.usage();
    assert_eq!(usage.used().data(), 1);
    assert_eq!(usage.tatal().data(), 2);
}

#[test]
fn bump_usage_counts_pages() {
    let areas = vec![area(0x1000, 4 * PAGE_SIZE), area(0x10000, 4 * PAGE_SIZE)];
    let bump = BumpAllocator::new(areas, 2 * PAGE_SIZE);
    let usage = bump.usage();
    assert_eq!(usage.used().data(), 2);
    assert_eq!(usage.tatal().data(), 8);
    assert_eq!(usage.free().data(), 6);
}

// Scenario: a single 16 MiB region at physical 0x400000 yields 4096
// tracked pages, of which exactly ceil(4096 / 4096) = 1 page is reserved
// for the usage bytes and counted used from the start.
#[test]
fn buddy_sixteen_mebibyte_region_reserves_one_usage_page() {
    let areas = vec![area(0x400000, 16 * 1024 * 1024)];
    let bump = BumpAllocator::new(areas, 0);
    let buddy = BuddyAllocator::new(bump).unwrap();
    let usage = buddy.usage();
    assert_eq!(usage.tatal().data(), 4096);
    assert_eq!(usage.used().data(), 1);
    assert_eq!(usage.free().data(), 4095);
}

// Coalescing: physically adjacent regions end up in exactly one entry,
// and the total equals the sum of the input sizes in pages.
#[test]
fn buddy_coalesces_adjacent_regions() {
    let areas = vec![area(0x100000, 8 * PAGE_SIZE), area(0x108000, 8 * PAGE_SIZE)];
    let bump = BumpAllocator::new(areas, 0);
    let buddy = BuddyAllocator::new(bump).unwrap();
    assert_eq!(buddy.entry_count(), 1);
    assert_eq!(buddy.usage().tatal().data(), 16);
    // The single entry covers exactly the union of the two regions.
    let e = buddy.entry(0).unwrap();
    assert_eq!(e.base().data(), 0x100000);
    assert_eq!(e.size(), 16 * PAGE_SIZE);
}

#[test]
fn buddy_keeps_separated_regions_apart() {
    let areas = vec![area(0x100000, 8 * PAGE_SIZE), area(0x200000, 8 * PAGE_SIZE)];
    let bump = BumpAllocator::new(areas, 0);
    let buddy = BuddyAllocator::new(bump).unwrap();
    assert_eq!(buddy.entry_count(), 2);
    assert_eq!(buddy.usage().tatal().data(), 16);
}

// Metadata self-consistency: every entry reserves ceil(pages / PAGE_SIZE)
// leading pages, marked used before any client allocation.
#[test]
fn buddy_metadata_reserved_after_construction() {
    let areas = vec![area(0x400000, 16 * 1024 * 1024), area(0x2000000, 8 * PAGE_SIZE)];
    let bump = BumpAllocator::new(areas, 0);
    let buddy = BuddyAllocator::new(bump).unwrap();
    assert_eq!(buddy.entry_count(), 2);
    let e0 = buddy.entry(0).unwrap();
    assert_eq!(e0.pages(), 4096);
    assert_eq!(e0.usage_pages(), 1);
    assert_eq!(e0.skip(), 1);
    assert_eq!(e0.used(), 1);
    let e1 = buddy.entry(1).unwrap();
    assert_eq!(e1.pages(), 8);
    assert_eq!(e1.usage_pages(), 1);
    assert_eq!(e1.skip(), 1);
    assert_eq!(e1.used(), 1);
    assert!(buddy.entry(2).is_none());
}

// The remainder of a partially consumed bump cursor is what the buddy
// allocator tracks.
#[test]
fn buddy_tracks_unconsumed_remainder() {
    let areas = vec![area(0x100000, 8 * PAGE_SIZE)];
    let mut bump = BumpAllocator::new(areas, 0);
    let first = bump.allocate(FrameCount::new(2)).unwrap();
    assert_eq!(first.data(), 0x100000);
    let buddy = BuddyAllocator::new(bump).unwrap();
    assert_eq!(buddy.usage().tatal().data(), 6);
    let e0 = buddy.entry(0).unwrap();
    assert_eq!(e0.base().data(), 0x100000 + 2 * PAGE_SIZE);
}

// First-fit: the first allocation comes right after the reserved
// metadata pages, at the lowest free address.
#[test]
fn buddy_first_fit_allocates_lowest_free_run() {
    let areas = vec![area(0x400000, 16 * 1024 * 1024)];
    let bump = BumpAllocator::new(areas, 0);
    let mut buddy = BuddyAllocator::new(bump).unwrap();
    let a = buddy.allocate_one().unwrap();
    assert_eq!(a.data(), 0x400000 + PAGE_SIZE);
    let b = buddy.allocate(FrameCount::new(4)).unwrap();
    assert_eq!(b.data(), 0x400000 + 2 * PAGE_SIZE);
}

// Allocate/free round trip: freeing the allocated run restores the used
// count, repeatedly.
#[test]
fn buddy_allocate_free_round_trip() {
    let areas = vec![area(0x400000, 64 * PAGE_SIZE)];
    let bump = BumpAllocator::new(areas, 0);
    let mut buddy = BuddyAllocator::new(bump).unwrap();
    let used0 = buddy.usage().used().data();
    for _ in 0..16 {
        let p = buddy.allocate(FrameCount::new(5)).unwrap();
        assert_eq!(buddy.usage().used().data(), used0 + 5);
        buddy.free(p, FrameCount::new(5));
        assert_eq!(buddy.usage().used().data(), used0);
        let total = buddy.usage().tatal().data();
        assert!(buddy.usage().used().data() <= total);
    }
}

// No double allocation: sequential allocations return distinct addresses
// while neither is freed.
#[test]
fn buddy_never_hands_out_the_same_page_twice() {
    let areas = vec![area(0x400000, 16 * PAGE_SIZE)];
    let bump = BumpAllocator::new(areas, 0);
    let mut buddy = BuddyAllocator::new(bump).unwrap();
    let a = buddy.allocate_one().unwrap();
    let b = buddy.allocate_one().unwrap();
    assert_ne!(a.data(), b.data());
    let mut seen = vec![a.data(), b.data()];
    while let Some(p) = buddy.allocate_one() {
        assert!(!seen.contains(&p.data()));
        seen.push(p.data());
    }
}

// Exhaustion is reported, not fatal: a request larger than any free run
// returns nothing and changes nothing.
#[test]
fn buddy_reports_exhaustion() {
    let areas = vec![area(0x400000, 8 * PAGE_SIZE)];
    let bump = BumpAllocator::new(areas, 0);
    let mut buddy = BuddyAllocator::new(bump).unwrap();
    let used0 = buddy.usage().used().data();
    assert!(buddy.allocate(FrameCount::new(8)).is_none());
    assert_eq!(buddy.usage().used().data(), used0);
    assert!(buddy.allocate(FrameCount::new(7)).is_some());
}

// Freed pages become allocatable again, splitting and reusing runs.
#[test]
fn buddy_reuses_freed_runs() {
    let areas = vec![area(0x400000, 16 * PAGE_SIZE)];
    let bump = BumpAllocator::new(areas, 0);
    let mut buddy = BuddyAllocator::new(bump).unwrap();
    let a = buddy.allocate(FrameCount::new(4)).unwrap();
    let _b = buddy.allocate(FrameCount::new(4)).unwrap();
    buddy.free(a, FrameCount::new(4));
    let c = buddy.allocate(FrameCount::new(2)).unwrap();
    assert_eq!(c.data(), a.data());
    let d = buddy.allocate(FrameCount::new(2)).unwrap();
    assert_eq!(d.data(), a.data() + 2 * PAGE_SIZE);
}

// The entry table holds at most `BUDDY_ENTRIES` coalesced regions:
// construction refuses one more non-adjacent region, and accepts exactly
// the capacity.
#[test]
fn buddy_refuses_more_regions_than_the_table_holds() {
    let full: Vec<MemoryArea> =
        (0..mm::BUDDY_ENTRIES as u64).map(|i| area(0x100000 + i * 2 * PAGE_SIZE, PAGE_SIZE)).collect();
    let bump = BumpAllocator::new(full, 0);
    let buddy = BuddyAllocator::new(bump).unwrap();
    assert_eq!(buddy.entry_count(), mm::BUDDY_ENTRIES);

    let overflowing: Vec<MemoryArea> =
        (0..mm::BUDDY_ENTRIES as u64 + 1).map(|i| area(0x100000 + i * 2 * PAGE_SIZE, PAGE_SIZE)).collect();
    let bump = BumpAllocator::new(overflowing, 0);
    assert!(BuddyAllocator::new(bump).is_none());
}
