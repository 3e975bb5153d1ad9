use kernel_memory::frame::{Frame, FrameAllocator};
use kernel_memory::frame_alloc::Allocator;
use kernel_memory::paging::entry::{Entry, EntryFlags, HUGE_PAGE, NO_EXECUTE, PRESENT, WRITABLE};
use kernel_memory::paging::mapper::{MapError, Mapper};
use kernel_memory::paging::table::{Table, TableLevel, P4_ADDRESS};
use kernel_memory::paging::temporary_page::{TemporaryPage, TinyAllocator};
use kernel_memory::paging::{ActivePageTable, InactivePageTable, Page};

/// Table memory of 1024 frames with the level-4 table in frame 0, and an
/// allocator that keeps frame 0 for it.
fn setup() -> (Mapper, Allocator) {
    (Mapper::new(0, 1024), Allocator::new(0x1000, 0, 0))
}

#[test]
fn page_indices() {
    let p = Page::from_address(0x40000000);
    assert_eq!(p.start_address(), 0x40000000);
    assert_eq!((p.p4_index(), p.p3_index(), p.p2_index(), p.p1_index()), (0, 1, 0, 0));
    let q = Page::from_address(0o177777_777_776_775_774_0123);
    assert_eq!((q.p4_index(), q.p3_index(), q.p2_index(), q.p1_index()), (0o777, 0o776, 0o775, 0o774));
    assert_eq!(q.start_address(), 0o177777_777_776_775_774_0000);
}

#[test]
fn map_translate_unmap() {
    let (mut m, mut a) = setup();
    let page = Page::from_address(0x40000000);
    let frame = Frame { number: 5, num_pages: 1 };
    let r = m.map_to(page, frame, EntryFlags::from_bits_truncate(WRITABLE), &mut a);
    assert_eq!(r, Ok(()));
    assert_eq!(m.translate(0x40000123), Some(5 * 4096 + 0x123));
    assert_eq!(m.translate(0x40000000), Some(5 * 4096));
    assert_eq!(m.translate(0x40000fff), Some(5 * 4096 + 0xfff));
    assert_eq!(m.translate(0x40001000), None);
    assert_eq!(m.translate_page(page), Some(Frame { number: 5, num_pages: 1 }));
    let flushed = m.unmap(page, &mut a);
    assert_eq!(flushed, 0x40000000);
    assert_eq!(m.translate(0x40000123), None);
    assert_eq!(m.translate_page(page), None);
}

#[test]
fn map_to_creates_three_tables() {
    let (mut m, mut a) = setup();
    let page = Page::from_address(0x40000000);
    assert_eq!(m.p1_frame(page), None);
    let r = m.map_to(page, Frame { number: 5, num_pages: 1 }, EntryFlags::empty(), &mut a);
    assert_eq!(r, Ok(()));
    // frames 1, 2 and 3 became the level-3, level-2 and level-1 tables
    assert_eq!(m.p1_frame(page), Some(3));
    assert_eq!(Allocator::allocate(&mut a, 1).unwrap().number, 4);
}

#[test]
fn second_mapping_reuses_tables() {
    let (mut m, mut a) = setup();
    let flags = EntryFlags::from_bits_truncate(WRITABLE);
    assert_eq!(m.map_to(Page::from_address(0x40000000), Frame { number: 5, num_pages: 1 }, flags, &mut a), Ok(()));
    assert_eq!(m.map_to(Page::from_address(0x40001000), Frame { number: 6, num_pages: 1 }, flags, &mut a), Ok(()));
    assert_eq!(Allocator::allocate(&mut a, 1).unwrap().number, 4);
    assert_eq!(m.translate(0x40001008), Some(6 * 4096 + 8));
    assert_eq!(m.translate(0x40000008), Some(5 * 4096 + 8));
}

#[test]
fn a_mapped_page_cannot_be_mapped_again() {
    let (mut m, mut a) = setup();
    let page = Page::from_address(0x40000000);
    let flags = EntryFlags::from_bits_truncate(WRITABLE);
    assert!(m.can_map(page));
    assert_eq!(m.map_to(page, Frame { number: 5, num_pages: 1 }, flags, &mut a), Ok(()));
    assert!(!m.can_map(page));
    assert!(m.can_map(Page::from_address(0x40001000)));
    assert_eq!(m.translate(0x40000000), Some(5 * 4096));
}

#[test]
fn mapping_fails_without_frames() {
    let mut m = Mapper::new(0, 1024);
    let mut a = Allocator::new(0x400000, 0, 0);
    let r = m.map_to(Page::from_address(0x40000000), Frame { number: 5, num_pages: 1 }, EntryFlags::empty(), &mut a);
    assert_eq!(r, Err(MapError::OutOfFrames));
}

#[test]
fn frames_outside_table_memory_are_refused() {
    let mut m = Mapper::new(0, 2);
    let mut a = Allocator::new(0x1000, 0, 0);
    let r = m.map_to(Page::from_address(0x40000000), Frame { number: 5, num_pages: 1 }, EntryFlags::empty(), &mut a);
    assert_eq!(r, Err(MapError::FrameOutOfRange));
}

#[test]
fn entry_naming_a_frame_outside_table_memory_blocks_the_walk() {
    let mut m = Mapper::new(0, 8);
    let mut a = Allocator::new(0x1000, 0, 0);
    m.write_entry(0, 0, 0x10_0000 | PRESENT | WRITABLE);
    let r = m.map_to(Page::from_address(0x40000000), Frame { number: 5, num_pages: 1 }, EntryFlags::empty(), &mut a);
    assert_eq!(r, Err(MapError::FrameOutOfRange));
    // the allocator was not asked
    assert_eq!(Allocator::allocate(&mut a, 1).unwrap().number, 1);
}

#[test]
fn install_table_takes_the_allocators_answer() {
    let mut m = Mapper::new(0, 8);
    assert_eq!(m.install_table(0, 3, None), Err(MapError::OutOfFrames));
    assert_eq!(m.install_table(0, 3, Some(Frame { number: 9, num_pages: 1 })), Err(MapError::FrameOutOfRange));
    assert_eq!(m.read_entry(0, 3), 0);
    assert_eq!(m.install_table(0, 3, Some(Frame { number: 0, num_pages: 1 })), Err(MapError::FrameInUse));
    assert_eq!(m.read_entry(0, 511), PRESENT | WRITABLE);
    m.write_entry(5, 7, 0x1234);
    assert_eq!(m.install_table(0, 3, Some(Frame { number: 5, num_pages: 1 })), Ok(5));
    assert_eq!(m.read_entry(0, 3), 5 * 4096 | PRESENT | WRITABLE);
    assert_eq!(m.read_entry(5, 7), 0);
    assert_eq!(m.next_table(0, 3), Some(5));
}

#[test]
fn map_takes_a_frame_from_the_allocator() {
    let (mut m, mut a) = setup();
    let page = Page::from_address(0x1234_5000);
    assert_eq!(m.map(page, EntryFlags::from_bits_truncate(WRITABLE), &mut a), Ok(()));
    // the page takes frame 1, its three tables frames 2, 3 and 4
    assert_eq!(m.translate(0x1234_5678), Some(1 * 4096 + 0x678));
    assert_eq!(m.p1_frame(page), Some(4));
}

#[test]
fn identity_mapping() {
    let (mut m, mut a) = setup();
    let frame = Frame { number: 0xb8, num_pages: 1 };
    assert_eq!(m.identity_map(frame, EntryFlags::from_bits_truncate(WRITABLE), &mut a), Ok(()));
    assert_eq!(m.translate(0xb8010), Some(0xb8010));
}

#[test]
fn higher_half_addresses() {
    let (mut m, mut a) = setup();
    let addr: u64 = 0xffff_8000_0020_3000;
    let page = Page::from_address(addr);
    assert_eq!(m.map_to(page, Frame { number: 77, num_pages: 1 }, EntryFlags::empty(), &mut a), Ok(()));
    assert_eq!(m.translate(addr + 5), Some(77 * 4096 + 5));
}

#[test]
fn recursive_entry_maps_the_level_4_table() {
    let m = Mapper::new(7, 16);
    // the last entry of the level-4 table points back at it
    assert_eq!(m.next_table(7, 511), Some(7));
    assert_eq!(m.next_table(7, 0), None);
    assert_eq!(m.read_entry(7, 511), 7 * 4096 | PRESENT | WRITABLE);
}

#[test]
fn huge_pages_cannot_be_mapped_through() {
    let mut m = Mapper::new(0, 8);
    let mut a = Allocator::new(0x1000, 0, 0);
    let page = Page::from_address(0x40000000);
    assert_eq!(m.map_to(page, Frame { number: 9, num_pages: 1 }, EntryFlags::empty(), &mut a), Ok(()));
    // turn the level-2 entry of the page into a huge page
    let p3 = m.next_table(0, 0).unwrap();
    let p2 = m.next_table(p3, 1).unwrap();
    let e = m.read_entry(p2, 0);
    m.write_entry(p2, 0, e | HUGE_PAGE);
    assert_eq!(m.translate(0x40000000), None);
    assert!(!m.can_map(Page::from_address(0x40001000)));
}

#[test]
fn entry_bits() {
    let mut e = Entry(0);
    assert!(e.is_unused());
    assert_eq!(e.frame_pointer(), None);
    e.set(Frame { number: 0x1234, num_pages: 1 }, EntryFlags::from_bits_truncate(PRESENT | WRITABLE | NO_EXECUTE));
    assert_eq!(e.0, 0x8000_0000_0123_4003);
    assert!(!e.is_unused());
    assert_eq!(e.frame_pointer(), Some(Frame { number: 0x1234, num_pages: 1 }));
    assert_eq!(e.flags().bits(), PRESENT | WRITABLE | NO_EXECUTE);
    assert!(e.flags().contains(EntryFlags::from_bits_truncate(WRITABLE)));
    assert!(!e.flags().contains(EntryFlags::from_bits_truncate(HUGE_PAGE)));
    e.set_unused();
    assert!(e.is_unused());
}

#[test]
fn entry_without_present_has_no_frame() {
    let e = Entry(0x5000 | WRITABLE);
    assert_eq!(e.frame_pointer(), None);
}

#[test]
fn flags_drop_unknown_bits() {
    let f = EntryFlags::from_bits_truncate(0xffff_ffff_ffff_ffff);
    assert_eq!(f.bits(), 0x8000_0000_0000_01ff);
    let g = EntryFlags::from_bits_truncate(PRESENT).union(EntryFlags::from_bits_truncate(WRITABLE));
    assert_eq!(g.bits(), 3);
    assert_eq!(EntryFlags::empty().bits(), 0);
}

#[test]
fn table_zero_and_recursive_addresses() {
    let mut t = Table::new(TableLevel::Level4);
    assert_eq!(t.level(), TableLevel::Level4);
    assert_eq!(TableLevel::Level2.next_level(), Some(TableLevel::Level1));
    assert_eq!(TableLevel::Level1.next_level(), None);
    t.set_index(42, Entry(0x7000 | PRESENT));
    t.set_index(43, Entry(0x8000 | PRESENT | HUGE_PAGE));
    assert_eq!(t.next_table_address(P4_ADDRESS, 42), Some(0xffff_ffff_ffe2_a000));
    assert_eq!(t.next_table_address(P4_ADDRESS, 43), None);
    assert_eq!(t.next_table_address(P4_ADDRESS, 44), None);
    t.set_index(7, Entry(0x9000 | PRESENT | WRITABLE));
    assert_eq!(t.next_table_address(0xffff_ffff_ffe2_a000, 7), Some(0xffff_ffff_c540_7000));
    t.zero();
    assert!((0..512).all(|i| t.index(i).is_unused()));
}

#[test]
fn temporary_page_maps_and_unmaps() {
    let (m, mut a) = setup();
    let mut active = ActivePageTable { mapper: m };
    let page = Page::from_address(0xdead_b000);
    let mut temp = TemporaryPage::new(page, &mut a);
    // the stash took frames 1, 2 and 3
    assert_eq!(Allocator::allocate(&mut a, 1).unwrap().number, 4);
    let addr = temp.map(Frame { number: 40, num_pages: 1 }, &mut active.mapper);
    assert_eq!(addr, Ok(0xdead_b000));
    assert_eq!(active.mapper.translate(0xdead_b010), Some(40 * 4096 + 0x10));
    assert!(!active.mapper.can_map(page));
    assert_eq!(temp.unmap(&mut active.mapper), 0xdead_b000);
    assert_eq!(active.mapper.translate(0xdead_b010), None);
}

#[test]
fn inactive_table_is_zeroed_and_recursive() {
    let mut active = ActivePageTable::new(0, 1024);
    let mut a = Allocator::new(0x1000, 0, 0);
    let mut temp = TemporaryPage::new(Page::from_address(0xcafe_0000), &mut a);
    let frame = Allocator::allocate(&mut a, 1).unwrap();
    assert_eq!(frame.number, 4);
    let inactive = InactivePageTable::new(frame, &mut active, &mut temp).unwrap();
    assert_eq!(active.mapper.read_entry(4, 511), 4 * 4096 | PRESENT | WRITABLE);
    assert!((0..511).all(|i| active.mapper.read_entry(4, i) == 0));
    assert_eq!(active.mapper.translate(0xcafe_0000), None);

    // edit the inactive hierarchy, then come back
    let backup = active.switch_to(&inactive, &mut temp).unwrap();
    assert_eq!(backup.number, 0);
    assert_eq!(active.mapper.p4_frame(), 4);
    assert_eq!(active.mapper.read_entry(0, 511), 4 * 4096 | PRESENT | WRITABLE);
    assert_eq!(
        active.mapper.map_to(Page::from_address(0x40000000), Frame { number: 99, num_pages: 1 }, EntryFlags::empty(), &mut a),
        Ok(())
    );
    assert_eq!(active.mapper.translate(0x40000000), Some(99 * 4096));
    assert_eq!(active.restore(backup, &mut temp), Ok(0xcafe_0000));
    assert_eq!(active.mapper.p4_frame(), 0);
    assert_eq!(active.mapper.read_entry(0, 511), PRESENT | WRITABLE);
    assert_eq!(active.mapper.translate(0x40000000), None);
    assert_eq!(active.mapper.translate(0xcafe_0000), None);
}

#[test]
fn table_frame_on_the_walk_is_refused() {
    // the allocator hands out frame 0, which already holds the level-4 table
    let mut m = Mapper::new(0, 1024);
    let mut a = Allocator::new(0, 0, 0);
    let r = m.map_to(Page::from_address(0x40000000), Frame { number: 5, num_pages: 1 }, EntryFlags::empty(), &mut a);
    assert_eq!(r, Err(MapError::FrameInUse));
}

#[test]
fn stash_serves_single_frames() {
    let mut a = Allocator::new(0x1000, 0, 0);
    let mut stash = TinyAllocator::new(&mut a);
    assert_eq!(stash.allocate(2), None);
    assert_eq!(stash.allocate(1), Some(Frame { number: 1, num_pages: 1 }));
    assert_eq!(stash.allocate(1), Some(Frame { number: 2, num_pages: 1 }));
    stash.deallocate(Frame { number: 1, num_pages: 1 });
    assert_eq!(stash.allocate(1), Some(Frame { number: 1, num_pages: 1 }));
    assert_eq!(stash.allocate(1), Some(Frame { number: 3, num_pages: 1 }));
    assert_eq!(stash.allocate(1), None);
}
