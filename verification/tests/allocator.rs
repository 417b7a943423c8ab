use lib::chunk::{ChunkHeader, HeapMemory, CHUNK_HEADER_SIZE};
use lib::heap_allocator::{AllocErr, MyAllocator};

#[test]
fn empty_allocator_is_exhausted() {
    let mut a = MyAllocator::empty();
    assert_eq!(a.allocate(4), Err(AllocErr::Exhausted { request: 4 }));
    assert_eq!(a.free_list(), vec![]);
    let mut b = MyAllocator::new();
    assert_eq!(b.allocate(0), Err(AllocErr::Exhausted { request: 0 }));
}

#[test]
fn init_makes_one_free_chunk() {
    let mut a = MyAllocator::empty();
    a.init(0x1000, 256);
    assert_eq!(a.free_list(), vec![(0x1000, 256)]);
}

#[test]
fn allocation_splits_first_chunk() {
    let mut a = MyAllocator::new();
    a.init(0x1000, 256);
    assert_eq!(a.allocate(10), Ok(0x1010));
    assert_eq!(a.free_list(), vec![(0x101a, 230)]);
    assert_eq!(a.allocate(10), Ok(0x102a));
    assert_eq!(a.free_list(), vec![(0x1034, 204)]);
}

#[test]
fn release_coalesces_back_to_one_chunk() {
    let mut a = MyAllocator::new();
    a.init(0x1000, 256);
    let p = a.allocate(10).unwrap();
    let q = a.allocate(10).unwrap();
    a.dealloc(p, 10);
    assert_eq!(a.free_list(), vec![(0x1000, 26), (0x1034, 204)]);
    a.dealloc(q, 10);
    assert_eq!(a.free_list(), vec![(0x1000, 256)]);
}

#[test]
fn release_undoes_allocation() {
    let mut a = MyAllocator::new();
    a.init(0x4000, 512);
    let _keep = a.allocate(40).unwrap();
    let p = a.allocate(8).unwrap();
    let _tail = a.allocate(30).unwrap();
    let before = a.free_list();
    let r = a.allocate(100).unwrap();
    assert_ne!(a.free_list(), before);
    a.dealloc(r, 100);
    assert_eq!(a.free_list(), before);
    a.dealloc(p, 8);
    let before = a.free_list();
    let r = a.allocate(8).unwrap();
    assert_eq!(r, p);
    a.dealloc(r, 8);
    assert_eq!(a.free_list(), before);
}

#[test]
fn small_remainder_stays_with_the_block() {
    let mut a = MyAllocator::new();
    a.init(0x2000, 40);
    assert_eq!(a.allocate(10), Ok(0x2010));
    assert_eq!(a.free_list(), vec![]);
    assert_eq!(a.allocate(1), Err(AllocErr::Exhausted { request: 1 }));
    a.dealloc(0x2010, 10);
    assert_eq!(a.free_list(), vec![(0x2000, 40)]);
}

#[test]
fn first_fit_skips_small_chunks() {
    let mut a = MyAllocator::new();
    a.init(0x1000, 256);
    let p = a.allocate(100).unwrap();
    assert_eq!(p, 0x1010);
    let q = a.allocate(50).unwrap();
    assert_eq!(q, 0x1084);
    assert_eq!(a.free_list(), vec![(0x10b6, 74)]);
    a.dealloc(p, 100);
    assert_eq!(a.free_list(), vec![(0x1000, 116), (0x10b6, 74)]);
    assert_eq!(a.allocate(80), Ok(0x1010));
    assert_eq!(a.free_list(), vec![(0x1060, 20), (0x10b6, 74)]);
    assert_eq!(a.allocate(60), Err(AllocErr::Exhausted { request: 60 }));
    assert_eq!(a.allocate(50), Ok(0x10c6));
    assert_eq!(a.free_list(), vec![(0x1060, 20)]);
}

#[test]
fn release_joins_previous_only() {
    let mut a = MyAllocator::new();
    a.init(0x1000, 256);
    let p = a.allocate(16).unwrap();
    let q = a.allocate(16).unwrap();
    let _r = a.allocate(16).unwrap();
    a.dealloc(p, 16);
    a.dealloc(q, 16);
    assert_eq!(a.free_list(), vec![(0x1000, 64), (0x1060, 160)]);
}

#[test]
fn release_joins_next_only() {
    let mut a = MyAllocator::new();
    a.init(0x1000, 256);
    let p = a.allocate(16).unwrap();
    let q = a.allocate(16).unwrap();
    a.dealloc(q, 16);
    assert_eq!(a.free_list(), vec![(0x1020, 224)]);
    a.dealloc(p, 16);
    assert_eq!(a.free_list(), vec![(0x1000, 256)]);
}

#[test]
fn chunk_list_head_serves_and_takes_back() {
    let mut mem = HeapMemory::new();
    let mut head = ChunkHeader::new(0x8000, 128, &mut mem);
    assert_eq!(head.free_list(&mem), vec![(0x8000, 128)]);
    let p = head.add(&mut mem, 20).unwrap();
    assert_eq!(p, 0x8000 + CHUNK_HEADER_SIZE);
    assert_eq!(head.free_list(&mem), vec![(0x8024, 92)]);
    assert_eq!(head.add(&mut mem, 100), None);
    head.del(&mut mem, p, 20);
    assert_eq!(head.free_list(&mem), vec![(0x8000, 128)]);
    let empty = ChunkHeader::empty();
    assert_eq!(empty.free_list(&HeapMemory::new()), vec![]);
}

#[test]
fn every_byte_is_free_or_handed_out() {
    let mut a = MyAllocator::new();
    a.init(0x1000, 256);
    let sizes = [10usize, 30, 1, 50];
    let mut blocks = Vec::new();
    for &n in sizes.iter() {
        blocks.push((a.allocate(n).unwrap(), n));
    }
    let free: usize = a.free_list().iter().map(|&(_, s)| s).sum();
    let used: usize = sizes.iter().map(|&n| n + CHUNK_HEADER_SIZE).sum();
    assert_eq!(free + used, 256);
    a.dealloc(blocks[1].0, blocks[1].1);
    let free: usize = a.free_list().iter().map(|&(_, s)| s).sum();
    assert_eq!(free + used - (30 + CHUNK_HEADER_SIZE), 256);
}

#[test]
fn blocks_lie_in_the_heap_and_do_not_overlap() {
    let mut a = MyAllocator::new();
    a.init(0x3000, 300);
    let mut blocks: Vec<(usize, usize)> = Vec::new();
    let mut n = 1;
    while let Ok(p) = a.allocate(n) {
        blocks.push((p, n));
        n += 7;
    }
    assert!(blocks.len() >= 3);
    for &(p, len) in blocks.iter() {
        assert!(p >= 0x3000 + CHUNK_HEADER_SIZE && p + len <= 0x3000 + 300);
        for &(q, m) in blocks.iter() {
            if p != q {
                assert!(p + len + CHUNK_HEADER_SIZE <= q || q + m + CHUNK_HEADER_SIZE <= p);
            }
        }
        for &(f, s) in a.free_list().iter() {
            assert!(p + len <= f || f + s <= p - CHUNK_HEADER_SIZE);
        }
    }
}
