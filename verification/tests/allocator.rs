use rusty_heap::rusty_heaper::RustyHeapAllocator;
use rusty_heap::size_class::block_size;
use rusty_heap::{get_alignment, size_index};

const START: usize = 1 << 20;
const HEAP: usize = 262144;

fn ready() -> RustyHeapAllocator {
    let mut a = RustyHeapAllocator::new();
    a.init(START, HEAP);
    a
}

fn fallback_end() -> usize {
    START + HEAP - 4 * (HEAP / 16)
}

#[test]
fn classify_smallest_class() {
    assert_eq!(size_index(1, 1), Some(0));
    assert_eq!(size_index(8, 8), Some(0));
    assert_eq!(size_index(8, 1), Some(0));
}

#[test]
fn classify_steps_at_multiples_of_eight() {
    assert_eq!(size_index(9, 1), Some(1));
    assert_eq!(size_index(16, 8), Some(1));
    assert_eq!(size_index(17, 1), Some(2));
    assert_eq!(size_index(504, 1), Some(62));
}

#[test]
fn classify_variable_classes() {
    assert_eq!(size_index(505, 1), Some(63));
    assert_eq!(size_index(1024, 1), Some(63));
    assert_eq!(size_index(1025, 1), Some(64));
    assert_eq!(size_index(4096, 1), Some(64));
    assert_eq!(size_index(4097, 1), Some(65));
    assert_eq!(size_index(16384, 1), Some(65));
    assert_eq!(size_index(16385, 1), Some(66));
    assert_eq!(size_index(65536, 1), Some(66));
}

#[test]
fn classify_uses_the_larger_of_size_and_alignment() {
    assert_eq!(size_index(10, 64), Some(7));
    assert_eq!(size_index(1, 1024), Some(63));
    assert_eq!(size_index(2048, 8), Some(64));
}

#[test]
fn classify_rejects_only_oversized_requests() {
    assert_eq!(size_index(65537, 1), None);
    assert_eq!(size_index(70000, 8), None);
    assert_eq!(size_index(1, 131072), None);
}

#[test]
fn alignment_is_floored_at_eight() {
    assert_eq!(get_alignment(1), 8);
    assert_eq!(get_alignment(8), 8);
}

#[test]
fn alignment_is_next_power_of_two() {
    assert_eq!(get_alignment(9), 16);
    assert_eq!(get_alignment(16), 16);
    assert_eq!(get_alignment(504), 512);
    assert_eq!(get_alignment(1024), 1024);
    assert_eq!(get_alignment(65536), 65536);
}

#[test]
fn table_block_sizes() {
    assert_eq!(block_size(0), 8);
    assert_eq!(block_size(1), 16);
    assert_eq!(block_size(62), 504);
    assert_eq!(block_size(63), 1024);
    assert_eq!(block_size(64), 4096);
    assert_eq!(block_size(65), 16384);
    assert_eq!(block_size(66), 65536);
}

#[test]
fn allocate_before_init_is_out_of_memory() {
    let mut a = RustyHeapAllocator::new();
    assert_eq!(a.allocate(16, 8), None);
    assert_eq!(a.allocate(2048, 8), None);
    assert_eq!(a.allocate(70000, 8), None);
}

#[test]
fn fixed_bin_reuses_freed_block() {
    let mut a = ready();
    let p = a.allocate(16, 8).unwrap();
    a.deallocate(p, 16, 8);
    assert_eq!(a.allocate(16, 8), Some(p));
}

#[test]
fn fixed_bin_reuse_is_last_in_first_out() {
    let mut a = ready();
    let p1 = a.allocate(32, 8).unwrap();
    let p2 = a.allocate(32, 8).unwrap();
    assert_ne!(p1, p2);
    a.deallocate(p1, 32, 8);
    a.deallocate(p2, 32, 8);
    assert_eq!(a.allocate(32, 8), Some(p2));
    assert_eq!(a.allocate(32, 8), Some(p1));
}

#[test]
fn freed_small_block_never_serves_a_larger_class() {
    let mut a = ready();
    let p8 = a.allocate(8, 8).unwrap();
    a.deallocate(p8, 8, 8);
    let p16 = a.allocate(16, 8).unwrap();
    assert_ne!(p16, p8);
    // and the size-8 list still holds its block
    assert_eq!(a.allocate(8, 8), Some(p8));
}

#[test]
fn variable_slice_exhausts_independently() {
    let mut a = ready();
    // the 4096-byte class owns one sixteenth of the region: four blocks
    for _ in 0..4 {
        let p = a.allocate(4096, 8).unwrap();
        assert_eq!(p % 8, 0);
    }
    assert_eq!(a.allocate(4096, 8), None);
    // the neighbouring classes are untouched
    assert!(a.allocate(1024, 8).is_some());
    assert!(a.allocate(16, 8).is_some());
    assert!(a.allocate(16384, 8).is_some());
    // and the 4096 class is still exhausted
    assert_eq!(a.allocate(4096, 8), None);
}

#[test]
fn variable_class_reuses_freed_range() {
    let mut a = ready();
    let p = a.allocate(2000, 8).unwrap();
    a.deallocate(p, 2000, 8);
    assert_eq!(a.allocate(2000, 8), Some(p));
}

#[test]
fn small_request_with_large_alignment_is_aligned() {
    let mut a = ready();
    let p = a.allocate(10, 64).unwrap();
    assert_eq!(p % 64, 0);
}

#[test]
fn aligned_request_stays_aligned_through_reuse() {
    let mut a = ready();
    let p = a.allocate(10, 64).unwrap();
    a.deallocate(p, 10, 64);
    let q = a.allocate(10, 64).unwrap();
    assert_eq!(q, p);
    assert_eq!(q % 64, 0);
}

#[test]
fn unclassifiable_request_is_served_by_the_fallback_partition() {
    let mut a = ready();
    let p = a.allocate(70000, 8).unwrap();
    assert!(p >= START);
    assert!(p + 70000 <= fallback_end());
}

#[test]
fn unclassifiable_request_round_trips() {
    let mut a = ready();
    let p = a.allocate(70000, 8).unwrap();
    a.deallocate(p, 70000, 8);
    assert_eq!(a.allocate(70000, 8), Some(p));
}

#[test]
fn oversized_request_beyond_fallback_is_out_of_memory() {
    let mut a = ready();
    // larger than the whole fallback partition
    assert_eq!(a.allocate(HEAP, 8), None);
}

#[test]
fn fallback_exhaustion_reports_out_of_memory() {
    let mut a = RustyHeapAllocator::new();
    // slices of 10 bytes are useless; the fallback keeps 120 bytes
    a.init(START, 160);
    let p = a.allocate(64, 64).unwrap();
    assert_eq!(p % 64, 0);
    assert_eq!(a.allocate(64, 64), None);
}

#[test]
fn empty_region_satisfies_nothing() {
    let mut a = RustyHeapAllocator::new();
    a.init(START, 0);
    assert_eq!(a.allocate(8, 8), None);
    assert_eq!(a.allocate(70000, 8), None);
}

#[test]
fn distinct_live_blocks_do_not_overlap() {
    let mut a = ready();
    let mut blocks: Vec<(usize, usize)> = Vec::new();
    for &(size, align) in
        &[(8usize, 8usize), (16, 8), (16, 16), (100, 8), (504, 8), (600, 8), (5000, 8), (70000, 8)]
    {
        let p = a.allocate(size, align).unwrap();
        assert_eq!(p % align, 0);
        blocks.push((p, size));
    }
    for i in 0..blocks.len() {
        for j in 0..blocks.len() {
            if i != j {
                let (p, s) = blocks[i];
                let (q, t) = blocks[j];
                assert!(p + s <= q || q + t <= p);
            }
        }
    }
}

#[test]
fn primed_blocks_use_the_class_size() {
    let mut a = ready();
    // two misses in the 24-byte class prime two fresh adjacent blocks
    let p1 = a.allocate(20, 8).unwrap();
    let p2 = a.allocate(20, 8).unwrap();
    assert!(p2 >= p1 + 24 || p1 >= p2 + 24);
}
