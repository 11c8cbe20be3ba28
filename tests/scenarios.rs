use dlmalloc::dummy;
use dlmalloc::layout::{
    align_up, compute_tree_index, is_small, pad_request, segment_request, small_index,
    small_index2size,
};
use dlmalloc::Dlmalloc;

#[test]
fn one_byte_round_trip() {
    let mut a = Dlmalloc::new();
    let p = a.malloc(1, 1);
    assert_ne!(p, 0);
    assert!(a.write(p, 0, 0xCE));
    assert_eq!(a.read(p, 0), Some(0xCE));
    a.free(p, 1, 1);
    assert_eq!(a.read(p, 0), None);
}

#[test]
fn over_aligned_allocation() {
    let mut a = Dlmalloc::new();
    let p = a.malloc(64, 128);
    assert_ne!(p, 0);
    assert_eq!(p % 128, 0);
    assert!(a.read_bytes(p, 64).is_some());
}

#[test]
fn large_alignments_hold() {
    let mut a = Dlmalloc::new();
    for shift in 5..13 {
        let align = 1usize << shift;
        let p = a.malloc(100, align);
        assert_ne!(p, 0);
        assert_eq!(p % align, 0);
    }
}

#[test]
fn realloc_growing_keeps_bytes() {
    let mut a = Dlmalloc::new();
    let p = a.malloc(16, 8);
    assert_ne!(p, 0);
    for i in 0..16 {
        assert!(a.write(p, i, i as u8));
    }
    let p2 = a.realloc(p, 16, 8, 64);
    assert_ne!(p2, 0);
    let bytes = a.read_bytes(p2, 16).unwrap();
    assert_eq!(bytes, (0..16).map(|i| i as u8).collect::<Vec<u8>>());
    assert!(a.read_bytes(p2, 64).is_some());
}

#[test]
fn realloc_growing_moves_when_blocked() {
    let mut a = Dlmalloc::new();
    let p = a.malloc(16, 8);
    let blocker = a.malloc(16, 8);
    assert_ne!(blocker, 0);
    for i in 0..16 {
        assert!(a.write(p, i, 100 + i as u8));
    }
    let p2 = a.realloc(p, 16, 8, 4000);
    assert_ne!(p2, 0);
    assert_ne!(p2, p);
    let bytes = a.read_bytes(p2, 16).unwrap();
    assert_eq!(bytes, (0..16).map(|i| 100 + i as u8).collect::<Vec<u8>>());
    assert!(a.read_bytes(p, 1).is_none());
}

#[test]
fn realloc_shrinking_stays_in_place() {
    let mut a = Dlmalloc::new();
    let p = a.malloc(1024, 8);
    assert_ne!(p, 0);
    for i in 0..16 {
        assert!(a.write(p, i, 7 * i as u8));
    }
    let p2 = a.realloc(p, 1024, 8, 16);
    assert_eq!(p2, p);
    let bytes = a.read_bytes(p2, 16).unwrap();
    assert_eq!(bytes, (0..16).map(|i| 7 * i as u8).collect::<Vec<u8>>());
    // The freed tail serves the next small request right after the payload.
    let q = a.malloc(16, 8);
    assert_eq!(q, p + 32);
}

#[test]
fn realloc_too_large_fails_and_keeps_pointer() {
    let mut a = Dlmalloc::new();
    let p = a.malloc(8, 8);
    assert!(a.write(p, 0, 42));
    assert_eq!(a.realloc(p, 8, 8, usize::MAX / 2), 0);
    assert_eq!(a.read(p, 0), Some(42));
}

#[test]
fn calloc_zeroes_reused_memory() {
    let mut a = Dlmalloc::new();
    let p = a.malloc(100, 8);
    a.fill(p, 0xAB, 100);
    a.free(p, 100, 8);
    let q = a.calloc(100, 8);
    assert_eq!(q, p);
    assert!(a.read_bytes(q, 100).unwrap().iter().all(|b| *b == 0));
}

#[test]
fn calloc_of_a_mapped_chunk_is_zero() {
    let mut a = Dlmalloc::new();
    let size = 3 * 1024 * 1024;
    let p = a.calloc(size, 16);
    assert_ne!(p, 0);
    let bytes = a.read_bytes(p, size).unwrap();
    assert!(bytes.iter().all(|b| *b == 0));
    let before = a.footprint();
    a.free(p, size, 16);
    assert!(a.footprint() < before);
}

#[test]
fn malloc_then_free_restores_allocations() {
    let mut a = Dlmalloc::new();
    let keep = a.malloc(40, 8);
    assert!(a.write(keep, 3, 5));
    let p = a.malloc(200, 16);
    assert_ne!(p, 0);
    a.free(p, 200, 16);
    assert!(a.read_bytes(p, 1).is_none());
    assert_eq!(a.read(keep, 3), Some(5));
    let again = a.malloc(200, 16);
    assert_eq!(again, p);
}

#[test]
fn coalescing_merges_neighbours() {
    let mut a = Dlmalloc::new();
    let x = a.malloc(100, 8);
    let y = a.malloc(100, 8);
    let z = a.malloc(100, 8);
    let guard = a.malloc(100, 8);
    assert_ne!(guard, 0);
    a.free(x, 100, 8);
    a.free(z, 100, 8);
    a.free(y, 100, 8);
    // One merged chunk of three now serves a request none alone could.
    let big = a.malloc(300, 8);
    assert_eq!(big, x);
}

#[test]
fn best_fit_prefers_smallest_chunk() {
    let mut a = Dlmalloc::new();
    let big = a.malloc(500, 8);
    let g1 = a.malloc(8, 8);
    let small = a.malloc(100, 8);
    let g2 = a.malloc(8, 8);
    assert!(g1 != 0 && g2 != 0);
    a.free(big, 500, 8);
    a.free(small, 100, 8);
    assert_eq!(a.malloc(90, 8), small);
    assert_eq!(a.malloc(400, 8), big);
}

#[test]
fn oversized_requests_fail() {
    let mut a = Dlmalloc::new();
    assert_eq!(a.malloc(usize::MAX, 8), 0);
    assert_eq!(a.calloc(0x1000_0001, 8), 0);
    assert_eq!(a.malloc(8, 1 << 30), 0);
    assert_eq!(a.footprint(), 0);
}

#[test]
fn platform_without_memory_fails() {
    let mut a = Dlmalloc::new_with_allocator(dummy::System::new());
    assert_eq!(a.malloc(1, 1), 0);
    assert_eq!(a.calloc(10, 8), 0);
    assert_eq!(a.footprint(), 0);
}

#[test]
fn zero_size_gets_a_minimum_chunk() {
    let mut a = Dlmalloc::new();
    let p = a.malloc(0, 1);
    assert_ne!(p, 0);
    assert!(a.read_bytes(p, 16).is_some());
}

#[test]
fn footprint_grows_by_pages_and_destroy_returns_it() {
    let mut a = Dlmalloc::new();
    assert_eq!(a.footprint(), 0);
    let p = a.malloc(10, 8);
    assert_ne!(p, 0);
    assert_eq!(a.footprint(), 2 * 1024 * 1024);
    assert!(a.max_footprint() >= a.footprint());
    a.destroy();
    assert_eq!(a.footprint(), 0);
    assert!(a.read_bytes(p, 1).is_none());
}

#[test]
fn contiguous_growth_extends_the_top() {
    let mut a = Dlmalloc::new();
    let p = a.malloc(40 * 1024, 8);
    let q = a.malloc(40 * 1024, 8);
    assert!(p != 0 && q != 0);
    // The second request did not fit in the first segment's top; the new
    // region continued it, so the payloads are adjacent.
    assert_eq!(q, p + pad_request(40 * 1024));
}

#[test]
fn request_padding_values() {
    assert_eq!(pad_request(0), 32);
    assert_eq!(pad_request(1), 32);
    assert_eq!(pad_request(16), 32);
    assert_eq!(pad_request(17), 48);
    assert_eq!(pad_request(24), 48);
    assert_eq!(pad_request(1000), 1024);
}

#[test]
fn alignment_helpers() {
    assert_eq!(align_up(0, 16), 0);
    assert_eq!(align_up(1, 16), 16);
    assert_eq!(align_up(4097, 4096), 8192);
    assert_eq!(align_up(70000, 4096), 73728);
}

#[test]
fn small_bin_indices() {
    assert_eq!(small_index(32), 4);
    assert_eq!(small_index(248), 31);
    assert_eq!(small_index2size(4), 32);
    assert!(is_small(240));
    assert!(!is_small(256));
}

#[test]
fn tree_bin_indices() {
    assert_eq!(compute_tree_index(256), 0);
    assert_eq!(compute_tree_index(383), 0);
    assert_eq!(compute_tree_index(384), 1);
    assert_eq!(compute_tree_index(512), 2);
    assert_eq!(compute_tree_index(768), 3);
    assert_eq!(compute_tree_index(1 << 20), 24);
    assert_eq!(compute_tree_index(3 << 21), 29);
    assert_eq!(compute_tree_index(3 << 22), 31);
    assert_eq!(compute_tree_index(1 << 24), 31);
    assert_eq!(compute_tree_index(usize::MAX / 4), 31);
}

#[test]
fn bin_maps_track_binned_chunks() {
    let mut a = Dlmalloc::new();
    assert_eq!(a.bin_maps(), (0, 0));
    let small = a.malloc(32, 8);
    let g1 = a.malloc(8, 8);
    let large = a.malloc(1000, 8);
    let g2 = a.malloc(8, 8);
    assert!(small != 0 && g1 != 0 && large != 0 && g2 != 0);
    // The top is never binned.
    assert_eq!(a.bin_maps(), (0, 0));
    a.free(small, 32, 8);
    a.free(large, 1000, 8);
    // A 48-byte chunk sits in small bin 6; a 1024-byte one in tree bin 4.
    assert_eq!(a.bin_maps(), (1 << 6, 1 << 4));
    assert_eq!(a.malloc(32, 8), small);
    assert_eq!(a.bin_maps(), (0, 1 << 4));
}

#[test]
fn freeing_everything_returns_memory() {
    let mut a = Dlmalloc::new();
    let mut ptrs = Vec::new();
    for _ in 0..100 {
        let p = a.malloc(64 * 1024, 8);
        assert_ne!(p, 0);
        ptrs.push(p);
    }
    let peak = a.footprint();
    assert!(peak >= 100 * 64 * 1024);
    for p in ptrs {
        a.free(p, 64 * 1024, 8);
    }
    assert!(a.footprint() < 4 * 1024 * 1024);
    assert!(a.footprint() < peak);
    assert!(a.max_footprint() >= peak);
}

#[test]
fn designated_victim_serves_the_next_small_request() {
    let mut a = Dlmalloc::new();
    let big = a.malloc(200, 8);
    let guard = a.malloc(8, 8);
    assert!(big != 0 && guard != 0);
    a.free(big, 200, 8);
    // A 224-byte chunk sits in small bin 28.
    assert_eq!(a.bin_maps(), (1 << 28, 0));
    let p1 = a.malloc(40, 8);
    assert_eq!(p1, big);
    // The remainder of the split is the designated victim, in no bin.
    assert_eq!(a.bin_maps(), (0, 0));
    let p2 = a.malloc(40, 8);
    assert_eq!(p2, big + 64);
    a.free(p2, 40, 8);
    // Freeing next to the victim grows it; it stays out of the bins.
    assert_eq!(a.bin_maps(), (0, 0));
    let p3 = a.malloc(100, 8);
    assert_eq!(p3, p2);
}

#[test]
fn mapped_chunk_grows_in_place() {
    let mut a = Dlmalloc::new();
    let size = 3 * 1024 * 1024;
    let p = a.malloc(size, 16);
    assert_ne!(p, 0);
    assert!(a.write(p, size - 1, 77));
    let before = a.footprint();
    let q = a.realloc(p, size, 16, 2 * size);
    assert_eq!(q, p);
    assert_eq!(a.read(q, size - 1), Some(77));
    assert!(a.read_bytes(q, 2 * size).is_some());
    assert!(a.footprint() > before);
}

#[test]
fn mapped_chunk_moves_when_not_last() {
    let mut a = Dlmalloc::new();
    let size = 3 * 1024 * 1024;
    let p = a.malloc(size, 16);
    assert!(a.write(p, 5, 9));
    let later = a.malloc(100, 8);
    assert_ne!(later, 0);
    let q = a.realloc(p, size, 16, 2 * size);
    assert_ne!(q, 0);
    assert_ne!(q, p);
    assert_eq!(a.read(q, 5), Some(9));
}

#[test]
fn segment_requests_follow_the_trim_threshold() {
    assert_eq!(segment_request(32, 4096), 2 * 1024 * 1024);
    assert_eq!(segment_request(2 * 1024 * 1024, 4096), 2 * 1024 * 1024 + 4096);
    assert_eq!(segment_request(3 * 1024 * 1024 + 48, 4096), 3 * 1024 * 1024 + 4096);
    assert_eq!(segment_request(100, 1), 2 * 1024 * 1024);
    assert_eq!(segment_request(2 * 1024 * 1024 + 1, 1), 2 * 1024 * 1024 + 32);
}

#[test]
fn a_top_must_keep_a_minimum_chunk() {
    let mut a = Dlmalloc::new();
    let p = a.malloc(8, 8);
    assert_ne!(p, 0);
    let before = a.footprint();
    // The top now holds 2 MiB less 48 bytes: a request for exactly that
    // chunk would leave no chunk behind, so the heap grows instead.
    let top_chunk = 2 * 1024 * 1024 - 16 - 32;
    let q = a.malloc(top_chunk - 16, 16);
    assert_ne!(q, 0);
    assert!(a.footprint() > before);
}

#[test]
fn victim_merged_into_a_top_is_dropped() {
    let mut a = Dlmalloc::new();
    let big = a.malloc(200, 8);
    let guard = a.malloc(8, 8);
    assert!(big != 0 && guard != 0);
    a.free(big, 200, 8);
    let p1 = a.malloc(40, 8);
    assert_eq!(p1, big);
    // The remainder is the victim; freeing everything after it merges the
    // victim into the top, and the next small request comes from the top.
    a.free(guard, 8, 8);
    assert_eq!(a.bin_maps(), (0, 0));
    let p2 = a.malloc(40, 8);
    assert_eq!(p2, big + 64);
}
