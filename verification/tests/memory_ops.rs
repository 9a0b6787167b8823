use kernelcore::frames::Freelist;
use kernelcore::heap;
use kernelcore::heap::MemRegion;
use kernelcore::paging::PageTables;

#[test]
fn freelist_is_last_in_first_out() {
    let mut fl = Freelist::new();
    fl.link_page(0x1000);
    fl.link_page(0x2000);
    fl.link_page(0x3000);
    assert_eq!(fl.unlink_page(), Some(0x3000));
    assert_eq!(fl.unlink_page(), Some(0x2000));
    assert_eq!(fl.unlink_page(), Some(0x1000));
    assert_eq!(fl.unlink_page(), None);
}

#[test]
fn release_then_acquire_returns_the_released_frame_first() {
    let mut fl = Freelist::new();
    fl.link_page(0x5000);
    fl.link_page(0x6000);
    let f = fl.unlink_page().unwrap();
    assert_eq!(f, 0x6000);
    fl.link_page(f);
    assert_eq!(fl.unlink_page(), Some(0x6000));
}

#[test]
fn unaligned_addresses_are_never_linked() {
    let mut fl = Freelist::new();
    fl.link_page(0x1234);
    assert_eq!(fl.unlink_page(), None);
}

#[test]
fn free_region_pushes_each_frame_lowest_first() {
    let mut fl = Freelist::new();
    fl.free_region(0x10000, 0x3000);
    assert_eq!(fl.unlink_page(), Some(0x12000));
    assert_eq!(fl.unlink_page(), Some(0x11000));
    assert_eq!(fl.unlink_page(), Some(0x10000));
    assert_eq!(fl.unlink_page(), None);
}

#[test]
fn free_region_skips_a_trailing_partial_frame() {
    let mut fl = Freelist::new();
    fl.free_region(0x20000, 0x1001);
    assert_eq!(fl.unlink_page(), Some(0x20000));
    assert_eq!(fl.unlink_page(), None);
}

#[test]
fn unaligned_region_base_yields_the_interior_frames() {
    let mut fl = Freelist::new();
    fl.free_region(0x10001, 0x3000);
    assert_eq!(fl.unlink_page(), Some(0x12000));
    assert_eq!(fl.unlink_page(), Some(0x11000));
    assert_eq!(fl.unlink_page(), None);
}

#[test]
fn region_smaller_than_a_frame_yields_nothing() {
    let mut fl = Freelist::new();
    fl.free_region(0, 1);
    assert_eq!(fl.unlink_page(), None);
}

#[test]
fn mapping_then_translating_yields_the_frame_and_flags() {
    let mut fl = Freelist::new();
    fl.free_region(0x100000, 0x10000);
    let mut pt = PageTables::new();
    assert_eq!(pt.translate_page(0x12345000), None);
    assert!(pt.map_page(&mut fl, 0x12345000, 0x777000, 3, 4096));
    assert_eq!(pt.translate_page(0x12345000), Some(0x777000 | 3));
}

#[test]
fn mapping_one_page_leaves_other_slots_unmapped() {
    let mut fl = Freelist::new();
    fl.free_region(0x100000, 0x10000);
    let mut pt = PageTables::new();
    assert!(pt.map_page(&mut fl, 0x12345000, 0x777000, 3, 4096));
    assert_eq!(pt.translate_page(0x12346000), None);
    assert_eq!(pt.translate_page(0), None);
}

#[test]
fn two_mappings_both_translate() {
    let mut fl = Freelist::new();
    fl.free_region(0x100000, 0x10000);
    let mut pt = PageTables::new();
    assert!(pt.map_page(&mut fl, 0x12345000, 0x777000, 3, 4096));
    assert!(pt.map_page(&mut fl, 0x12346000, 0x888000, 7, 4096));
    assert_eq!(pt.translate_page(0x12345000), Some(0x777000 | 3));
    assert_eq!(pt.translate_page(0x12346000), Some(0x888000 | 7));
}

#[test]
fn mapping_fails_when_the_freelist_is_exhausted() {
    let mut fl = Freelist::new();
    let mut pt = PageTables::new();
    assert!(!pt.map_page(&mut fl, 0x12345000, 0x777000, 3, 4096));
    assert_eq!(pt.translate_page(0x12345000), None);
}

#[test]
fn heap_bootstrap_maps_the_window_and_exhausts_the_freelist() {
    let regions = vec![
        MemRegion { base: 0x100000, length: 0x5000, usable: true },
        MemRegion { base: 0x200000, length: 0x2000, usable: false },
    ];
    let (mut fl, pt, pages, _) = heap::mm_init(&regions);
    assert_eq!(fl.unlink_page(), None);
    // five frames were reclaimed: the first heap page costs three of them
    // for the intermediate tables, the second reuses those tables
    assert_eq!(pages, 2);
    assert_eq!(pt.translate_page(heap::HEAP_START), Some(0x104000 | 3));
    assert_eq!(pt.translate_page(heap::HEAP_START + 4096), Some(0x100000 | 3));
    assert_eq!(pt.translate_page(heap::HEAP_START + 2 * 4096), None);
}

#[test]
fn heap_bootstrap_with_no_usable_memory_maps_nothing() {
    let regions = vec![MemRegion { base: 0x100000, length: 0x3000, usable: false }];
    let (_, pt, pages, _) = heap::mm_init(&regions);
    assert_eq!(pages, 0);
    assert_eq!(pt.translate_page(heap::HEAP_START), None);
}
