use ulib::heap::{AllocError, Heap};
use ulib::layout::{header_offset, payload_offset, round_up, UNIT};

fn overlap(p: usize, n: usize, q: usize, m: usize) -> bool {
    p < q + m && q < p + n
}

#[test]
fn fresh_heap_is_empty() {
    let heap = Heap::new(1024);
    assert_eq!(heap.capacity(), 1024);
    assert_eq!(heap.high_water_mark(), 0);
    assert_eq!(heap.free_blocks(), Vec::<usize>::new());
    assert!(heap.is_consistent());
}

#[test]
fn requests_are_rounded_up_to_whole_units() {
    assert_eq!(UNIT, 16);
    assert_eq!(round_up(0), Some(16));
    assert_eq!(round_up(1), Some(16));
    assert_eq!(round_up(16), Some(16));
    assert_eq!(round_up(17), Some(32));
    assert_eq!(round_up(100), Some(112));
    assert_eq!(round_up(usize::MAX - 15), Some(usize::MAX - 15));
    assert_eq!(round_up(usize::MAX - 14), None);
    assert_eq!(round_up(usize::MAX), None);
}

#[test]
fn header_and_payload_are_one_unit_apart() {
    assert_eq!(payload_offset(0), 16);
    assert_eq!(payload_offset(48), 64);
    assert_eq!(header_offset(16), 0);
    assert_eq!(header_offset(64), 48);
}

#[test]
fn first_allocations_are_carved_in_address_order() {
    let mut heap = Heap::new(1024);
    assert_eq!(heap.allocate(1), Ok(16));
    assert_eq!(heap.high_water_mark(), 32);
    assert_eq!(heap.allocate(17), Ok(48));
    assert_eq!(heap.high_water_mark(), 80);
    assert_eq!(heap.allocate(32), Ok(96));
    assert_eq!(heap.high_water_mark(), 128);
    assert_eq!(heap.usable_size(16), 16);
    assert_eq!(heap.usable_size(48), 32);
    assert_eq!(heap.usable_size(96), 32);
    assert!(heap.is_consistent());
}

#[test]
fn a_request_of_no_bytes_is_served_like_one_byte() {
    let mut heap = Heap::new(64);
    assert_eq!(heap.allocate(0), Ok(16));
    assert_eq!(heap.usable_size(16), 16);
    assert_eq!(heap.high_water_mark(), 32);
}

#[test]
fn allocations_are_disjoint_and_inside_the_arena() {
    let mut heap = Heap::new(4096);
    let sizes = [1usize, 40, 16, 100, 7, 64, 33, 128];
    let mut got: Vec<(usize, usize)> = Vec::new();
    for n in sizes {
        let p = heap.allocate(n).unwrap();
        assert!(p >= UNIT);
        assert!(p + n <= heap.capacity());
        for (q, m) in got.iter() {
            assert!(!overlap(p, n, *q, *m));
        }
        got.push((p, n));
    }
    assert!(heap.is_consistent());
}

#[test]
fn allocations_hold_the_request_and_are_aligned() {
    let mut heap = Heap::new(4096);
    for n in [1usize, 15, 16, 17, 31, 32, 33, 255, 256, 257] {
        let p = heap.allocate(n).unwrap();
        assert_eq!(p % UNIT, 0);
        assert!(heap.is_live(p));
        assert!(heap.usable_size(p) >= n);
        assert_eq!(heap.usable_size(p), round_up(n).unwrap());
    }
}

#[test]
fn round_trip_reuses_the_released_block() {
    let mut heap = Heap::new(1024);
    let _keep = heap.allocate(24).unwrap();
    let p = heap.allocate(100).unwrap();
    let mark = heap.high_water_mark();
    heap.release(p);
    assert_eq!(heap.high_water_mark(), mark);
    let q = heap.allocate(100).unwrap();
    assert_eq!(q, p);
    assert!(heap.usable_size(q) >= 100);
    assert_eq!(heap.high_water_mark(), mark);
    assert!(heap.is_consistent());
}

#[test]
fn three_neighbours_coalesce_whatever_the_order() {
    let orders = [[0usize, 2, 1], [0, 1, 2], [1, 0, 2], [1, 2, 0], [2, 0, 1], [2, 1, 0]];
    for order in orders {
        let mut heap = Heap::new(1024);
        let guard_low = heap.allocate(16).unwrap();
        let blocks = [
            heap.allocate(32).unwrap(),
            heap.allocate(32).unwrap(),
            heap.allocate(32).unwrap(),
        ];
        let guard_high = heap.allocate(16).unwrap();
        let mark = heap.high_water_mark();
        for i in order {
            heap.release(blocks[i]);
            assert!(heap.is_consistent());
        }
        assert_eq!(heap.free_blocks(), vec![blocks[0] - UNIT]);
        let whole = 3 * 32 + 2 * UNIT;
        assert_eq!(heap.allocate(whole), Ok(blocks[0]));
        assert_eq!(heap.usable_size(blocks[0]), whole);
        assert_eq!(heap.high_water_mark(), mark);
        assert!(heap.is_live(guard_low));
        assert!(heap.is_live(guard_high));
        assert!(heap.is_consistent());
    }
}

#[test]
fn release_merges_with_the_lower_neighbour_only() {
    let mut heap = Heap::new(1024);
    let a = heap.allocate(32).unwrap();
    let b = heap.allocate(32).unwrap();
    let c = heap.allocate(32).unwrap();
    heap.release(a);
    heap.release(b);
    assert_eq!(heap.free_blocks(), vec![a - UNIT]);
    assert!(heap.is_live(c));
    assert_eq!(heap.allocate(80), Ok(a));
    assert_eq!(heap.usable_size(a), 80);
}

#[test]
fn release_merges_with_the_upper_neighbour_only() {
    let mut heap = Heap::new(1024);
    let a = heap.allocate(32).unwrap();
    let b = heap.allocate(32).unwrap();
    let c = heap.allocate(32).unwrap();
    let d = heap.allocate(32).unwrap();
    heap.release(c);
    heap.release(b);
    assert_eq!(heap.free_blocks(), vec![b - UNIT]);
    assert!(heap.is_live(a));
    assert!(heap.is_live(d));
    assert_eq!(heap.allocate(80), Ok(b));
}

#[test]
fn release_between_used_neighbours_merges_nothing() {
    let mut heap = Heap::new(1024);
    let a = heap.allocate(32).unwrap();
    let b = heap.allocate(32).unwrap();
    let c = heap.allocate(32).unwrap();
    let d = heap.allocate(32).unwrap();
    let e = heap.allocate(32).unwrap();
    heap.release(d);
    heap.release(b);
    assert_eq!(heap.free_blocks(), vec![b - UNIT, d - UNIT]);
    let mark = heap.high_water_mark();
    assert_eq!(heap.allocate(48), Ok(mark + UNIT));
    assert!(heap.is_live(a) && heap.is_live(c) && heap.is_live(e));
    assert!(heap.is_consistent());
}

#[test]
fn free_list_is_kept_in_address_order() {
    let mut heap = Heap::new(2048);
    let mut p = Vec::new();
    for _ in 0..8 {
        p.push(heap.allocate(16).unwrap());
    }
    for i in [6usize, 2, 4, 0] {
        heap.release(p[i]);
    }
    assert_eq!(heap.free_blocks(), vec![p[0] - UNIT, p[2] - UNIT, p[4] - UNIT, p[6] - UNIT]);
    assert!(heap.is_consistent());
}

#[test]
fn first_fit_takes_the_lowest_block_that_holds_the_request() {
    let mut heap = Heap::new(2048);
    let a = heap.allocate(16).unwrap();
    let _g1 = heap.allocate(16).unwrap();
    let b = heap.allocate(64).unwrap();
    let _g2 = heap.allocate(16).unwrap();
    let c = heap.allocate(64).unwrap();
    let _g3 = heap.allocate(16).unwrap();
    heap.release(a);
    heap.release(b);
    heap.release(c);
    assert_eq!(heap.allocate(48), Ok(b));
    assert_eq!(heap.allocate(48), Ok(c));
    assert_eq!(heap.allocate(10), Ok(a));
}

#[test]
fn a_large_free_block_is_split() {
    let mut heap = Heap::new(1024);
    let a = heap.allocate(64).unwrap();
    let _guard = heap.allocate(16).unwrap();
    heap.release(a);
    assert_eq!(heap.allocate(16), Ok(a));
    assert_eq!(heap.usable_size(a), 16);
    assert_eq!(heap.free_blocks(), vec![a + 16]);
    assert_eq!(heap.allocate(32), Ok(a + 16 + UNIT));
    assert_eq!(heap.usable_size(a + 16 + UNIT), 32);
    assert_eq!(heap.free_blocks(), Vec::<usize>::new());
}

#[test]
fn a_block_with_too_small_a_rest_is_handed_out_whole() {
    let mut heap = Heap::new(1024);
    let a = heap.allocate(32).unwrap();
    let _guard = heap.allocate(16).unwrap();
    heap.release(a);
    assert_eq!(heap.allocate(16), Ok(a));
    assert_eq!(heap.usable_size(a), 32);
    assert_eq!(heap.free_blocks(), Vec::<usize>::new());
    assert!(heap.is_consistent());
}

#[test]
fn steady_cycles_do_not_move_the_high_water_mark() {
    let mut heap = Heap::new(8192);
    let _pinned = heap.allocate(40).unwrap();
    let mut seed: u32 = 12345;
    let mut mark_after_first = 0;
    for cycle in 0..20 {
        let mut live = Vec::new();
        for _ in 0..12 {
            live.push(heap.allocate(48).unwrap());
        }
        while !live.is_empty() {
            seed = seed.wrapping_mul(1103515245).wrapping_add(12345);
            let i = (seed >> 16) as usize % live.len();
            let p = live.swap_remove(i);
            heap.release(p);
        }
        if cycle == 0 {
            mark_after_first = heap.high_water_mark();
        }
        assert_eq!(heap.high_water_mark(), mark_after_first);
        assert!(heap.is_consistent());
    }
    assert_eq!(mark_after_first, 64 + 12 * (48 + UNIT));
}

#[test]
fn free_list_matches_the_headers_after_every_operation() {
    let mut heap = Heap::new(4096);
    let mut live: Vec<usize> = Vec::new();
    let mut seed: u32 = 2024;
    for _ in 0..400 {
        seed = seed.wrapping_mul(1664525).wrapping_add(1013904223);
        let roll = (seed >> 8) as usize;
        if roll % 3 != 0 || live.is_empty() {
            let n = 1 + (roll >> 4) % 200;
            match heap.allocate(n) {
                Ok(p) => {
                    assert!(!live.contains(&p));
                    live.push(p);
                }
                Err(e) => assert_eq!(e, AllocError::OutOfMemory),
            }
        } else {
            let i = (roll >> 4) % live.len();
            let p = live.swap_remove(i);
            heap.release(p);
            assert!(!heap.is_live(p));
        }
        assert!(heap.is_consistent());
        for p in live.iter() {
            assert!(heap.is_live(*p));
        }
        let free = heap.free_blocks();
        for pair in free.windows(2) {
            assert!(pair[0] < pair[1]);
        }
        for a in free.iter() {
            assert!(!heap.is_live(*a + UNIT));
        }
    }
}

#[test]
fn exhaustion_is_signalled_and_harms_nothing() {
    let mut heap = Heap::new(96);
    let a = heap.allocate(16).unwrap();
    let b = heap.allocate(16).unwrap();
    let c = heap.allocate(16).unwrap();
    assert_eq!((a, b, c), (16, 48, 80));
    assert_eq!(heap.high_water_mark(), 96);
    assert_eq!(heap.allocate(1), Err(AllocError::OutOfMemory));
    assert_eq!(heap.allocate(16), Err(AllocError::OutOfMemory));
    assert_eq!(heap.high_water_mark(), 96);
    for p in [a, b, c] {
        assert!(heap.is_live(p));
        assert_eq!(heap.usable_size(p), 16);
    }
    assert!(heap.is_consistent());
}

#[test]
fn a_request_beyond_the_arena_is_refused() {
    let mut heap = Heap::new(256);
    assert_eq!(heap.allocate(241), Err(AllocError::OutOfMemory));
    assert_eq!(heap.allocate(257), Err(AllocError::OutOfMemory));
    assert_eq!(heap.allocate(usize::MAX), Err(AllocError::OutOfMemory));
    assert_eq!(heap.high_water_mark(), 0);
    assert_eq!(heap.allocate(240), Ok(16));
    assert_eq!(heap.high_water_mark(), 256);
    assert_eq!(heap.allocate(1), Err(AllocError::OutOfMemory));
}

#[test]
fn an_arena_too_small_for_a_header_serves_nothing() {
    let mut heap = Heap::new(0);
    assert_eq!(heap.allocate(1), Err(AllocError::OutOfMemory));
    let mut heap = Heap::new(31);
    assert_eq!(heap.allocate(1), Err(AllocError::OutOfMemory));
    let mut heap = Heap::new(32);
    assert_eq!(heap.allocate(1), Ok(16));
}

#[test]
fn freed_space_serves_after_exhaustion() {
    let mut heap = Heap::new(128);
    let a = heap.allocate(48).unwrap();
    let b = heap.allocate(48).unwrap();
    assert_eq!(heap.allocate(16), Err(AllocError::OutOfMemory));
    heap.release(a);
    assert_eq!(heap.allocate(16), Ok(a));
    assert!(heap.is_live(b));
    heap.release(b);
    heap.release(a);
    assert_eq!(heap.allocate(112), Ok(16));
    assert_eq!(heap.high_water_mark(), 128);
}

#[test]
fn liveness_is_told_from_the_headers() {
    let mut heap = Heap::new(512);
    let a = heap.allocate(16).unwrap();
    let b = heap.allocate(16).unwrap();
    assert!(heap.is_live(a));
    assert!(heap.is_live(b));
    assert!(!heap.is_live(0));
    assert!(!heap.is_live(a + 1));
    assert!(!heap.is_live(a + 16));
    assert!(!heap.is_live(400));
    assert!(!heap.is_live(usize::MAX));
    heap.release(a);
    assert!(!heap.is_live(a));
    assert!(heap.is_live(b));
}

#[test]
fn malloc_and_free_work_on_the_heap() {
    let mut heap = Heap::new(128);
    let p = ulib::malloc(&mut heap, 40);
    assert_eq!(p, Some(16));
    let q = ulib::malloc(&mut heap, 40);
    assert_eq!(q, Some(80));
    assert_eq!(ulib::malloc(&mut heap, 1), None);
    ulib::free(&mut heap, 16);
    assert!(!heap.is_live(16));
    assert_eq!(ulib::malloc(&mut heap, 48), Some(16));
    ulib::free(&mut heap, 80);
    ulib::free(&mut heap, 16);
    assert_eq!(heap.free_blocks(), vec![0]);
    assert!(heap.is_consistent());
}

#[test]
fn stored_bytes_are_read_back() {
    let mut heap = Heap::new(256);
    let p = heap.allocate(20).unwrap();
    assert_eq!(heap.payload(p).len(), 32);
    heap.store(p, 0, b"hello");
    heap.store(p, 30, &[7, 9]);
    heap.store(p, 5, &[]);
    assert_eq!(&heap.payload(p)[..5], b"hello");
    assert_eq!(&heap.payload(p)[30..], &[7, 9]);
    assert!(heap.is_consistent());
}

#[test]
fn payloads_survive_what_happens_around_them() {
    let mut heap = Heap::new(512);
    let a = heap.allocate(16).unwrap();
    let b = heap.allocate(16).unwrap();
    let c = heap.allocate(48).unwrap();
    heap.store(a, 0, &[0x11; 16]);
    heap.store(b, 0, &[0x22; 16]);
    heap.store(c, 0, &[0x33; 48]);
    heap.release(b);
    assert_eq!(heap.payload(a), &[0x11; 16]);
    assert_eq!(heap.payload(c), &[0x33; 48]);
    let d = heap.allocate(16).unwrap();
    assert_eq!(d, b);
    let e = heap.allocate(100).unwrap();
    heap.store(e, 0, &[0x55; 100]);
    heap.release(c);
    let f = heap.allocate(16).unwrap();
    assert_eq!(f, c);
    assert_eq!(heap.payload(a), &[0x11; 16]);
    assert_eq!(&heap.payload(e)[..100], &[0x55; 100]);
    assert_eq!(heap.allocate(1000), Err(AllocError::OutOfMemory));
    assert_eq!(heap.payload(a), &[0x11; 16]);
    assert!(heap.is_consistent());
}

#[test]
fn headers_lie_before_their_payloads() {
    let mut heap = Heap::new(128);
    let p = heap.allocate(33).unwrap();
    assert_eq!(heap.arena().len(), 128);
    let header = &heap.arena()[p - UNIT..p];
    assert_eq!(&header[..8], &48u64.to_le_bytes());
    assert_eq!(header[8], 0);
    heap.release(p);
    let header = &heap.arena()[p - UNIT..p];
    assert_eq!(&header[..8], &48u64.to_le_bytes());
    assert_ne!(header[8], 0);
}

#[test]
fn checked_release_fails_closed() {
    let mut heap = Heap::new(256);
    let a = heap.allocate(16).unwrap();
    let b = heap.allocate(16).unwrap();
    assert_eq!(heap.checked_release(a + 1), Err(AllocError::InvalidRelease));
    assert_eq!(heap.checked_release(0), Err(AllocError::InvalidRelease));
    assert_eq!(heap.checked_release(1000), Err(AllocError::InvalidRelease));
    assert!(heap.is_live(a) && heap.is_live(b));
    assert_eq!(heap.checked_release(a), Ok(()));
    assert_eq!(heap.checked_release(a), Err(AllocError::InvalidRelease));
    assert_eq!(heap.free_blocks(), vec![a - UNIT]);
    assert_eq!(heap.checked_release(b), Ok(()));
    assert_eq!(heap.free_blocks(), vec![0]);
    assert!(heap.is_consistent());
}

#[test]
fn malloc_and_free_leave_other_payloads_alone() {
    let mut heap = Heap::new(144);
    let a = ulib::malloc(&mut heap, 16).unwrap();
    let b = ulib::malloc(&mut heap, 16).unwrap();
    heap.store(a, 0, &[0xa1; 16]);
    heap.store(b, 0, &[0xb2; 16]);
    let c = ulib::malloc(&mut heap, 48).unwrap();
    assert_eq!(c, 64 + UNIT);
    assert_eq!(heap.payload(a), &[0xa1; 16]);
    assert_eq!(heap.payload(b), &[0xb2; 16]);
    heap.store(c, 0, &[0xc3; 48]);
    let before = heap.arena().to_vec();
    let links = heap.free_blocks();
    assert_eq!(ulib::malloc(&mut heap, 1), None);
    assert_eq!(heap.arena(), &before[..]);
    assert_eq!(heap.free_blocks(), links);
    ulib::free(&mut heap, b);
    assert_eq!(heap.payload(a), &[0xa1; 16]);
    assert_eq!(heap.payload(c), &[0xc3; 48]);
    assert_eq!(heap.high_water_mark(), 128);
}
