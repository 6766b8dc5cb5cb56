use mm::PAGE_ENTRIES;
use mm::PAGE_SIZE;
use mm::PageEntry;
use mm::PageTable;
use mm::PhysicalAddress;
use mm::VirtualAddress;

#[test]
fn page_entry_decodes_address_and_flags() {
    let e = PageEntry::new(0x0000_0040_0000_0003);
    assert!(e.present());
    assert!(e.writable());
    assert_eq!(e.address().data(), 0x40_0000_0000);
    assert_eq!(e.flags(), 3);
    let absent = PageEntry::new(0x4000_0000_0000_0002);
    assert!(!absent.present());
}

#[test]
fn entry_base_steps_by_level_span() {
    let leaf = PageTable::new(VirtualAddress::new(0x20_0000), PhysicalAddress::new(0x3000), 0);
    assert_eq!(leaf.entry_base(0).unwrap().data(), 0x20_0000);
    assert_eq!(leaf.entry_base(1).unwrap().data(), 0x20_1000);
    assert_eq!(leaf.entry_base(511).unwrap().data(), 0x20_0000 + 511 * PAGE_SIZE);
    assert!(leaf.entry_base(512).is_none());
    let top = PageTable::new(VirtualAddress::new(0), PhysicalAddress::new(0), 3);
    assert_eq!(top.entry_base(1).unwrap().data(), 0x80_0000_0000);
}

// Table walk determinism: `index_of` inverts `entry_base` at every level.
#[test]
fn index_of_inverts_entry_base() {
    for level in 0..4 {
        let base = if level == 3 { 0 } else { 0x80_0000_0000u64 };
        let t = PageTable::new(VirtualAddress::new(base), PhysicalAddress::new(0x5000), level);
        for i in [0u64, 1, 7, 255, 511] {
            let eb = t.entry_base(i).unwrap();
            assert_eq!(t.index_of(eb), Some(i));
        }
    }
}

#[test]
fn index_of_rejects_addresses_outside_the_level() {
    let t = PageTable::new(VirtualAddress::new(0x4000_0000), PhysicalAddress::new(0x5000), 1);
    // Covers [0x4000_0000, 0x8000_0000): below and above fall out.
    assert!(t.index_of(VirtualAddress::new(0x3FFF_F000)).is_none());
    assert!(t.index_of(VirtualAddress::new(0x8000_0000)).is_none());
    assert_eq!(t.index_of(VirtualAddress::new(0x4000_0000)), Some(0));
    assert_eq!(t.index_of(VirtualAddress::new(0x4020_0123)), Some(1));
}

#[test]
fn table_getters_report_construction_values() {
    let t = PageTable::new(VirtualAddress::new(0), PhysicalAddress::new(0x7000), 3);
    assert_eq!(t.base().data(), 0);
    assert_eq!(t.phys().data(), 0x7000);
    assert_eq!(t.level(), 3);
    assert_eq!(PAGE_ENTRIES, 512);
}
