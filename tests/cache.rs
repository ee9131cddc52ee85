use io_cache::cache_impl::{Associativity, CacheConfig};
use io_cache::heap::LFU;
use io_cache::lookup::{DMLookup, Scan, Table};
use io_cache::replace::{DMReplace, FIFO, LRU};
use io_cache::IOCache;

fn config(block_size: usize, associativity: Associativity, write_through: bool) -> CacheConfig {
    CacheConfig { block_size, associativity, write_through }
}

#[test]
fn it_works() {
    assert_eq!(2 + 2, 4);
}

#[test]
fn direct_mapped_conflict_writes_back_on_eviction() {
    let source = vec![0u8; 48];
    let mut c: IOCache<DMLookup, DMReplace> =
        IOCache::new(source, config(16, Associativity::DirectMapped, false), 32);
    assert_eq!(c.write(0, &[0x11u8; 16]), 16);
    assert!(c.is_resident(0));
    assert_eq!(c.write(32, &[0x22u8; 16]), 16);
    assert!(!c.is_resident(0));
    assert!(c.is_resident(2));
    let mut buf = [0u8; 16];
    assert_eq!(c.read(0, 16, &mut buf), 16);
    assert_eq!(buf, [0x11u8; 16]);
    let out = c.into_source();
    assert_eq!(&out[0..16], &[0x11u8; 16]);
    assert_eq!(&out[16..32], &[0u8; 16]);
    assert_eq!(&out[32..48], &[0x22u8; 16]);
}

#[test]
fn lru_two_way_evicts_least_recent() {
    let source: Vec<u8> = (0..64u8).collect();
    let mut c: IOCache<Scan, LRU> = IOCache::new(source, config(8, Associativity::NWay(2), false), 16);
    let mut buf = [0u8; 1];
    for page in [1u64, 2, 1, 3] {
        assert_eq!(c.read(page * 8, page * 8 + 1, &mut buf), 1);
        assert_eq!(buf[0], (page * 8) as u8);
    }
    assert!(c.is_resident(1));
    assert!(!c.is_resident(2));
    assert!(c.is_resident(3));
}

#[test]
fn lfu_four_way_evicts_least_counted() {
    let source: Vec<u8> = (0..32u8).collect();
    let mut c: IOCache<Table, LFU> = IOCache::new(source, config(4, Associativity::NWay(4), false), 16);
    let mut buf = [0u8; 4];
    for page in [0u64, 0, 0, 1, 1, 2, 3, 3] {
        assert_eq!(c.read(page * 4, page * 4 + 4, &mut buf), 4);
    }
    for page in 0..4u64 {
        assert!(c.is_resident(page));
    }
    assert_eq!(c.read(16, 20, &mut buf), 4);
    assert_eq!(buf, [16, 17, 18, 19]);
    assert!(!c.is_resident(2));
    assert!(c.is_resident(0));
    assert!(c.is_resident(1));
    assert!(c.is_resident(3));
    assert!(c.is_resident(4));
}

#[test]
fn write_through_partial_block_reaches_source() {
    let source: Vec<u8> = (0..32u8).collect();
    let mut c: IOCache<DMLookup, DMReplace> =
        IOCache::new(source.clone(), config(16, Associativity::DirectMapped, true), 32);
    assert_eq!(c.write(6, &[0xDE, 0xAD, 0xBE, 0xEF]), 4);
    let out = c.into_source();
    let mut expected = source.clone();
    expected[6..10].copy_from_slice(&[0xDE, 0xAD, 0xBE, 0xEF]);
    assert_eq!(&out[0..16], &expected[0..16]);
    assert_eq!(out, expected);
}

#[test]
fn short_read_at_end_of_source() {
    let source: Vec<u8> = (1..=10u8).collect();
    let mut c: IOCache<Scan, LRU> = IOCache::new(source.clone(), config(8, Associativity::NWay(2), false), 32);
    let mut buf = [0xAAu8; 20];
    assert_eq!(c.read(0, 20, &mut buf), 10);
    assert_eq!(&buf[0..10], &source[..]);
    assert_eq!(&buf[10..20], &[0xAAu8; 10]);
}

#[test]
fn read_stops_at_buffer_end() {
    let source: Vec<u8> = (0..40u8).collect();
    let mut c: IOCache<Scan, FIFO> = IOCache::new(source, config(8, Associativity::NWay(2), false), 32);
    let mut buf = [0u8; 5];
    assert_eq!(c.read(3, 30, &mut buf), 5);
    assert_eq!(buf, [3, 4, 5, 6, 7]);
    assert_eq!(c.read(50, 60, &mut buf), 0);
}

#[test]
fn round_trip_through_cache_matches_direct_writes() {
    let source: Vec<u8> = (0..64u8).collect();
    let mut direct = source.clone();
    let mut c: IOCache<Table, LRU> = IOCache::new(source, config(8, Associativity::NWay(2), false), 32);
    let writes: Vec<(u64, Vec<u8>)> = vec![
        (5, vec![1, 2, 3, 4, 5, 6, 7, 8, 9, 10]),
        (30, vec![0xAB; 12]),
        (0, vec![0xCD; 3]),
        (60, vec![7, 7, 7, 7]),
        (6, vec![0xEE]),
    ];
    for (off, data) in &writes {
        assert_eq!(c.write(*off, data), data.len());
        let o = *off as usize;
        direct[o..o + data.len()].copy_from_slice(data);
    }
    let out = c.into_source();
    assert_eq!(out, direct);
}

#[test]
fn write_past_end_extends_with_zeros() {
    let source: Vec<u8> = vec![9u8; 4];
    let mut c: IOCache<Scan, LRU> = IOCache::new(source, config(8, Associativity::NWay(2), false), 32);
    assert_eq!(c.write(20, &[1, 2]), 2);
    let mut buf = [0xFFu8; 30];
    assert_eq!(c.read(0, 30, &mut buf), 22);
    assert_eq!(&buf[0..4], &[9, 9, 9, 9]);
    assert_eq!(&buf[4..20], &[0u8; 16]);
    assert_eq!(&buf[20..22], &[1, 2]);
    let out = c.into_source();
    assert!(out.len() >= 22);
    assert_eq!(&out[0..22], &buf[0..22]);
    assert!(out[22..].iter().all(|b| *b == 0));
}

#[test]
fn repeated_reads_are_identical() {
    let source: Vec<u8> = (0..100u8).collect();
    let mut c: IOCache<DMLookup, DMReplace> =
        IOCache::new(source, config(8, Associativity::DirectMapped, false), 16);
    let mut a = [0u8; 40];
    let mut b = [0u8; 40];
    assert_eq!(c.read(10, 50, &mut a), 40);
    assert_eq!(c.read(10, 50, &mut b), 40);
    assert_eq!(a, b);
    assert_eq!(a[0], 10);
    assert_eq!(a[39], 49);
}

#[test]
fn eviction_writes_last_bytes_of_dirty_page() {
    let source = vec![0u8; 64];
    let mut c: IOCache<Scan, LRU> = IOCache::new(source, config(8, Associativity::NWay(2), false), 16);
    assert_eq!(c.write(8, &[1, 1, 1]), 3);
    assert_eq!(c.write(9, &[2]), 1);
    assert_eq!(c.write(16, &[3]), 1);
    assert_eq!(c.write(24, &[4]), 1);
    assert!(!c.is_resident(1));
    let mut buf = [0u8; 3];
    assert_eq!(c.read(8, 11, &mut buf), 3);
    assert_eq!(buf, [1, 2, 1]);
}

#[test]
fn pages_live_in_their_set() {
    let source: Vec<u8> = (0..128u8).collect();
    let mut c: IOCache<Table, LRU> = IOCache::new(source, config(8, Associativity::NWay(2), false), 64);
    let mut buf = [0u8; 1];
    for page in [0u64, 4, 8] {
        assert_eq!(c.read(page * 8, page * 8 + 1, &mut buf), 1);
    }
    assert!(!c.is_resident(0));
    assert!(c.is_resident(4));
    assert!(c.is_resident(8));
    assert_eq!(c.read(8, 9, &mut buf), 1);
    assert!(c.is_resident(1));
    assert!(c.is_resident(4));
}

#[test]
fn read_chunks_splits_at_page_bounds() {
    let source: Vec<u8> = (0..40u8).collect();
    let mut c: IOCache<Scan, LRU> = IOCache::new(source, config(8, Associativity::FullyAssociative, false), 32);
    let chunks = c.read_chunks(5, 21);
    assert_eq!(chunks, vec![vec![5, 6, 7], (8..16u8).collect::<Vec<u8>>(), vec![16, 17, 18, 19, 20]]);
    let tail = c.read_chunks(36, 100);
    assert_eq!(tail, vec![vec![36, 37, 38, 39]]);
    assert!(c.read_chunks(50, 60).is_empty());
}

#[test]
fn strict_budget_cache_reads_source() {
    let source: Vec<u8> = (0..64u8).collect();
    let mut c: IOCache<Scan, LRU> =
        IOCache::new_strict(source, config(8, Associativity::NWay(2), false), 64 + 2 * (2 * 8 + 128 + 2 * 40));
    let mut buf = [0u8; 64];
    assert_eq!(c.read(0, 64, &mut buf), 64);
    assert_eq!(buf[63], 63);
}
