use kernel_memory::buddy::{Buddy, Node};
use kernel_memory::buddy_alloc::BuddyAllocator;

fn all_unused(b: &Buddy) -> bool {
    (0..b.len()).all(|i| b.state(i) == Node::Unused)
}

fn cells(b: &Buddy) -> Vec<Node> {
    (0..b.len()).map(|i| b.state(i)).collect()
}

#[test]
fn first_fit_fills_the_arena() {
    let mut b = Buddy::with_levels(3);
    assert_eq!(b.allocate(1), 0);
    assert_eq!(b.allocate(1), 1);
    assert_eq!(b.allocate(2), 2);
    assert_eq!(b.allocate(4), 4);
    assert_eq!(b.allocate(1), -1);
}

#[test]
fn sizes_round_up_to_a_power_of_two() {
    let mut b = Buddy::with_levels(3);
    assert_eq!(b.allocate(3), 0);
    assert_eq!(b.allocate(4), 4);
    assert_eq!(b.allocate(1), -1);
}

#[test]
fn freed_buddies_coalesce() {
    let mut b = Buddy::with_levels(3);
    assert_eq!(b.allocate(1), 0);
    assert_eq!(b.allocate(1), 1);
    b.free(1, 0);
    b.free(1, 1);
    assert_eq!(b.allocate(2), 0);
}

#[test]
fn reserved_frames_are_skipped() {
    let mut b = Buddy::with_levels(3);
    assert!(b.mark_used(2, 0));
    assert_eq!(b.allocate(2), 2);
    assert_eq!(b.allocate(4), 4);
}

#[test]
fn reserved_single_frames_are_never_handed_out() {
    let mut b = Buddy::with_levels(3);
    assert!(b.mark_used(3, 2));
    let mut got = Vec::new();
    loop {
        let r = b.allocate(1);
        if r < 0 {
            break;
        }
        got.push(r);
    }
    assert_eq!(got, vec![0, 1, 5, 6, 7]);
}

#[test]
fn zero_frames_takes_one() {
    let mut b = Buddy::with_levels(3);
    assert_eq!(b.allocate(0), 0);
    assert_eq!(b.allocate(0), 1);
}

#[test]
fn request_larger_than_arena_fails() {
    let mut b = Buddy::with_levels(3);
    assert_eq!(b.allocate(9), -1);
    assert!(all_unused(&b));
    assert_eq!(b.allocate(8), 0);
    assert_eq!(b.allocate(1), -1);
}

#[test]
fn whole_arena_round_trip() {
    let mut b = Buddy::with_levels(3);
    assert_eq!(b.allocate(8), 0);
    assert!((0..b.len()).all(|i| b.state(i) == Node::Used));
    b.free(8, 0);
    assert!(all_unused(&b));
}

#[test]
fn allocate_then_free_restores_every_cell() {
    let mut b = Buddy::with_levels(4);
    assert_eq!(b.allocate(1), 0);
    assert_eq!(b.allocate(4), 4);
    let before = cells(&b);
    let o = b.allocate(3);
    assert_eq!(o, 8);
    assert_ne!(cells(&b), before);
    b.free(3, o as usize);
    assert_eq!(cells(&b), before);
}

#[test]
fn freeing_everything_in_any_order_empties_the_tree() {
    let mut b = Buddy::with_levels(3);
    let a = b.allocate(1);
    let c = b.allocate(2);
    let d = b.allocate(1);
    let e = b.allocate(4);
    assert_eq!((a, c, d, e), (0, 2, 1, 4));
    b.free(4, 4);
    b.free(1, 0);
    b.free(2, 2);
    b.free(1, 1);
    assert!(all_unused(&b));
    assert_eq!(b.state(0), Node::Unused);
}

#[test]
fn live_blocks_do_not_overlap() {
    let mut b = Buddy::with_levels(5);
    let sizes = [3usize, 1, 5, 2, 1, 8, 4];
    let mut live: Vec<(usize, usize)> = Vec::new();
    for &n in sizes.iter() {
        let o = b.allocate(n);
        assert!(o >= 0);
        live.push((o as usize, n.next_power_of_two()));
    }
    for i in 0..live.len() {
        for j in 0..live.len() {
            if i != j {
                let (o1, s1) = live[i];
                let (o2, s2) = live[j];
                assert!(o1 + s1 <= o2 || o2 + s2 <= o1);
            }
        }
    }
}

#[test]
fn exhaustion_fails_the_first_request_over_budget() {
    let mut b = Buddy::with_levels(3);
    assert_eq!(b.allocate(4), 0);
    assert_eq!(b.allocate(2), 4);
    assert_eq!(b.allocate(2), 6);
    assert_eq!(b.allocate(1), -1);
}

#[test]
fn states_of_a_split_tree() {
    let mut b = Buddy::with_levels(2);
    assert_eq!(b.allocate(1), 0);
    assert_eq!(b.state(0), Node::Split);
    assert_eq!(b.state(1), Node::Split);
    assert_eq!(b.state(2), Node::Unused);
    assert_eq!(b.state(3), Node::Used);
    assert_eq!(b.state(4), Node::Unused);
    assert_eq!(b.allocate(1), 1);
    assert_eq!(b.state(1), Node::Full);
    assert_eq!(b.state(0), Node::Split);
}

#[test]
fn default_tree_covers_1024_frames() {
    let mut b = Buddy::new();
    assert_eq!(b.len(), 2047);
    assert_eq!(b.allocate(1024), 0);
    assert_eq!(b.allocate(1), -1);
}

#[test]
fn block_allocator_returns_unit_offsets() {
    let mut a = BuddyAllocator::new();
    assert_eq!(a.allocate(1), 0);
    assert_eq!(a.allocate(2), 2);
    assert_eq!(a.allocate(1), 1);
    a.free(1, 0);
    assert_eq!(a.allocate(1), 0);
    assert_eq!(a.allocate(512), -1);
    assert_eq!(a.allocate(256), -1);
    assert_eq!(a.allocate(128), 128);
}

#[test]
fn block_allocator_frees_and_joins() {
    let mut a = BuddyAllocator::new();
    assert_eq!(a.allocate(1), 0);
    assert_eq!(a.allocate(1), 1);
    a.free(1, 0);
    a.free(1, 1);
    assert_eq!(a.allocate(256), 0);
    assert_eq!(a.allocate(1), -1);
}

#[test]
fn live_blocks_stay_apart_across_frees() {
    let mut b = Buddy::with_levels(4);
    let mut live: Vec<(usize, usize)> = Vec::new();
    let steps: [(bool, usize); 10] = [
        (true, 2), (true, 1), (true, 4), (false, 0), (true, 1),
        (true, 3), (false, 1), (true, 2), (true, 1), (true, 2),
    ];
    for &(alloc, n) in steps.iter() {
        if alloc {
            let o = b.allocate(n);
            assert!(o >= 0);
            let size = n.next_power_of_two();
            for &(o2, s2) in live.iter() {
                assert!(o as usize + size <= o2 || o2 + s2 <= o as usize);
            }
            live.push((o as usize, size));
        } else {
            let (o, size) = live.remove(n);
            b.free(size, o);
        }
    }
    while let Some((o, size)) = live.pop() {
        b.free(size, o);
    }
    assert!(all_unused(&b));
}
