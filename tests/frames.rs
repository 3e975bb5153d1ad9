use kernel_memory::frame::{Frame, FrameAllocator};
use kernel_memory::frame_alloc::Allocator;

#[test]
fn frame_addresses() {
    let f = Frame::from_address(0x5123, 2);
    assert_eq!(f.number, 5);
    assert_eq!(f.num_pages, 2);
    assert_eq!(f.start_address(), 0x5000);
}

#[test]
fn boot_regions_are_reserved() {
    // kernel in frames 0..3 (ends inside frame 2), boot information in frames 5..7
    let mut a = Allocator::new(0x2800, 0x5100, 0x6001);
    let mut got = Vec::new();
    for _ in 0..5 {
        got.push(Allocator::allocate(&mut a, 1).unwrap().number);
    }
    assert_eq!(got, vec![3, 4, 7, 8, 9]);
}

#[test]
fn allocator_hands_out_frames_with_their_size() {
    let mut a = Allocator::new(0x1000, 0x1000, 0x1000);
    assert_eq!(Allocator::allocate(&mut a, 1), Some(Frame { number: 1, num_pages: 1 }));
    assert_eq!(Allocator::allocate(&mut a, 2), Some(Frame { number: 2, num_pages: 2 }));
    assert_eq!(Allocator::allocate(&mut a, 3), Some(Frame { number: 4, num_pages: 3 }));
    assert_eq!(Allocator::allocate(&mut a, 2048), None);
}

#[test]
fn allocator_runs_out() {
    let mut a = Allocator::new(0, 0, 0);
    assert_eq!(Allocator::allocate(&mut a, 1024), Some(Frame { number: 0, num_pages: 1024 }));
    assert_eq!(Allocator::allocate(&mut a, 1), None);
}

#[test]
fn deallocate_gives_frames_back() {
    let mut a = Allocator::new(0, 0, 0);
    let f = Allocator::allocate(&mut a, 4).unwrap();
    assert_eq!(f.number, 0);
    FrameAllocator::deallocate(&mut a, f);
    assert_eq!(FrameAllocator::allocate(&mut a, 8), Some(Frame { number: 0, num_pages: 8 }));
}

#[test]
fn frames_outside_the_arena_are_not_taken_back() {
    let a = Allocator::new(0, 0, 0);
    assert!(!a.can_take_back(&Frame { number: 4096, num_pages: 1 }));
    assert!(!a.can_take_back(&Frame { number: 0, num_pages: 2048 }));
    assert!(a.can_take_back(&Frame { number: 1023, num_pages: 1 }));
}

#[test]
fn boot_regions_beyond_the_arena_are_clipped() {
    // the kernel runs past the arena's end; the boot information lies beyond it
    let mut a = Allocator::new(0x500000, 0x800000, 0x801000);
    assert_eq!(Allocator::allocate(&mut a, 1), None);
    let mut b = Allocator::new(0x3ff800, 0x3ff000, 0x900000);
    assert_eq!(Allocator::allocate(&mut b, 1), None);
    let mut c = Allocator::new(0, 0x3ff000, 0x900000);
    assert_eq!(Allocator::allocate(&mut c, 1), Some(Frame { number: 0, num_pages: 1 }));
    assert_eq!(Allocator::allocate(&mut c, 512), None);
    assert_eq!(Allocator::allocate(&mut c, 256), Some(Frame { number: 256, num_pages: 256 }));
}
