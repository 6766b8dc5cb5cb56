use mm::Arch;
use mm::BuddyAllocator;
use mm::BumpAllocator;
use mm::ENTRY_FLAG_USER;
use mm::ENTRY_FLAG_WRITABLE;
use mm::EmulateArch;
use mm::FrameAllocator;
use mm::MEGA_BYTE;
use mm::PAGE_SIZE;
use mm::PageFlushAll;
use mm::PageMapper;
use mm::VirtualAddress;
use mm::phys_to_virt;

/// Brings the emulated machine to its steady state, the way kernel init
/// would: arch bring-up, a bump allocator over the reported regions, a
/// fresh address space direct-mapping every usable frame, installing it,
/// and converting the leftover bootstrap memory into the buddy allocator.
fn boot() -> (EmulateArch, BuddyAllocator) {
    let mut arch = EmulateArch::new();
    let areas = arch.init();
    assert_eq!(areas.len(), 2);
    let mut bump = BumpAllocator::new(areas.clone(), 0);
    let mapper = PageMapper::create(&mut arch, &mut bump).expect("no frame for the root table");
    for area in &areas {
        let pages = area.size / PAGE_SIZE;
        for i in 0..pages {
            let phys = area.base.add(i * PAGE_SIZE);
            let virt = phys_to_virt(phys);
            let flush = mapper
                .map_phys(&mut arch, &mut bump, virt, phys, ENTRY_FLAG_WRITABLE)
                .expect("failed to map a frame into the direct map");
            // The table is not active yet: nothing can have cached a
            // translation, so the obligation may be waived.
            flush.ignore();
        }
    }
    mapper.make_current(&mut arch);
    let buddy = BuddyAllocator::new(bump).expect("region table overflow");
    (arch, buddy)
}

#[test]
fn init_reports_well_formed_adjacent_regions() {
    let mut arch = EmulateArch::new();
    let areas = arch.init();
    assert_eq!(areas.len(), 2);
    for a in &areas {
        assert!(a.size > 0);
        assert_eq!(a.size % PAGE_SIZE, 0);
        assert_eq!(a.base.data() % PAGE_SIZE, 0);
    }
    assert_eq!(areas[0].base.data() + areas[0].size, areas[1].base.data());
}

#[test]
fn boot_gives_buddy_the_unconsumed_memory() {
    let (_arch, buddy) = boot();
    let usage = buddy.usage();
    // The two adjacent regions coalesce into a single tracked entry.
    assert_eq!(buddy.entry_count(), 1);
    assert!(usage.tatal().data() > 0);
    assert!(usage.used().data() <= usage.tatal().data());
}

// Scenario: map a page writable, then a write through the virtual
// address is visible when reading the frame through the direct map.
#[test]
fn mapped_page_write_reads_back_through_direct_map() {
    let (mut arch, mut buddy) = boot();
    let mapper = PageMapper::current(&arch);
    let virt = VirtualAddress::new(MEGA_BYTE);
    let phys = buddy.allocate_one().expect("out of frames");
    let flush = mapper
        .map_phys(&mut arch, &mut buddy, virt, phys, ENTRY_FLAG_WRITABLE)
        .expect("failed to map the page");
    let all = PageFlushAll::new();
    all.consume(flush);
    all.flush(&mut arch);
    arch.write(virt, 0x5A);
    assert_eq!(arch.read(phys_to_virt(phys)), 0x5A);
    assert_eq!(arch.read(virt), 0x5A);
}

// Scenario: unmapping returns the frame the page was mapped to, and once
// the flush is discharged the translation is gone.
#[test]
fn unmap_returns_frame_and_drops_translation() {
    let (mut arch, mut buddy) = boot();
    let mapper = PageMapper::current(&arch);
    let virt = VirtualAddress::new(2 * MEGA_BYTE);
    let phys = buddy.allocate_one().expect("out of frames");
    let flush = mapper
        .map_phys(&mut arch, &mut buddy, virt, phys, ENTRY_FLAG_WRITABLE)
        .expect("failed to map the page");
    let all = PageFlushAll::new();
    all.consume(flush);
    all.flush(&mut arch);
    assert!(arch.translate(virt).is_some());
    let (back, flush) = mapper.unmap_phys(&mut arch, virt).expect("page was mapped");
    assert_eq!(back.data(), phys.data());
    // Until the token is discharged the stale translation is still
    // cached; afterwards a raw access at the address would be fatal.
    assert!(arch.translate(virt).is_some());
    flush.flush(&mut arch);
    assert!(arch.translate(virt).is_none());
    assert!(mapper.unmap_phys(&mut arch, virt).is_none());
}

// Flush discipline: a mutation is invisible through the translation path
// until its token is discharged, and each token is consumed exactly once
// (tracked here by counting outstanding tokens).
#[test]
fn mapping_invisible_until_flushed() {
    let (mut arch, mut buddy) = boot();
    let mapper = PageMapper::current(&arch);
    let mut outstanding = Vec::new();
    for i in 0..16u64 {
        let virt = VirtualAddress::new(MEGA_BYTE + i * PAGE_SIZE);
        let flush = mapper
            .map(&mut arch, &mut buddy, virt, ENTRY_FLAG_USER | ENTRY_FLAG_WRITABLE)
            .expect("failed to map the page");
        // The mutation is not yet visible: nothing cached for this page.
        assert!(arch.translate(virt).is_none());
        outstanding.push(flush);
    }
    assert_eq!(outstanding.len(), 16);
    let all = PageFlushAll::new();
    for flush in outstanding {
        all.consume(flush);
    }
    all.flush(&mut arch);
    for i in 0..16u64 {
        let virt = VirtualAddress::new(MEGA_BYTE + i * PAGE_SIZE);
        assert!(arch.translate(virt).is_some());
    }
}

// The buddy allocator keeps its accounting across a mapping workload.
#[test]
fn map_and_unmap_preserve_allocator_accounting() {
    let (mut arch, mut buddy) = boot();
    let mapper = PageMapper::current(&arch);
    let used0 = buddy.usage().used().data();
    let virt = VirtualAddress::new(4 * MEGA_BYTE);
    let flush = mapper
        .map(&mut arch, &mut buddy, virt, ENTRY_FLAG_WRITABLE)
        .expect("failed to map the page");
    let all = PageFlushAll::new();
    all.consume(flush);
    all.flush(&mut arch);
    // One leaf frame plus any intermediate tables were drawn.
    assert!(buddy.usage().used().data() > used0);
    let (frame, flush) = mapper.unmap_phys(&mut arch, virt).expect("page was mapped");
    flush.flush(&mut arch);
    buddy.free_one(frame);
}

#[test]
fn translate_applies_page_offset() {
    let (mut arch, mut buddy) = boot();
    let mapper = PageMapper::current(&arch);
    let virt = VirtualAddress::new(8 * MEGA_BYTE);
    let phys = buddy.allocate_one().expect("out of frames");
    let flush = mapper
        .map_phys(&mut arch, &mut buddy, virt, phys, ENTRY_FLAG_WRITABLE)
        .expect("failed to map the page");
    let all = PageFlushAll::new();
    all.consume(flush);
    all.flush(&mut arch);
    let (p, flags) = arch.translate(VirtualAddress::new(8 * MEGA_BYTE + 0x123)).unwrap();
    assert_eq!(p.data(), phys.data() + 0x123);
    assert!(flags & ENTRY_FLAG_WRITABLE != 0);
}

// Creating an address space fails cleanly when the bootstrap allocator
// has nothing left to give.
#[test]
fn create_reports_frame_exhaustion() {
    let mut arch = EmulateArch::new();
    let areas = arch.init();
    let total: u64 = areas.iter().map(|a| a.size).sum();
    let mut empty_bump = BumpAllocator::new(areas, total);
    assert!(PageMapper::create(&mut arch, &mut empty_bump).is_none());
}
