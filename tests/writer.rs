use io_cache::cache_impl::{Associativity, CacheConfig, CacheImpl};
use io_cache::io::{Reader, Writer};
use io_cache::lookup::Scan;
use io_cache::replace::LRU;
use io_cache::writeback::{AsyncIOImpl, QueuedIO, Submit};

fn queued(s: Submit) -> bool {
    matches!(s, Submit::Queued)
}

#[test]
fn worker_crash_reports_failed_page_then_recovers() {
    let mut q = AsyncIOImpl::new(8);
    for page in 1..=6u64 {
        assert!(queued(q.submit(page, &[page as u8; 4])));
    }
    for page in 1..=4u64 {
        let (p, data) = q.next().unwrap();
        assert_eq!(p, page);
        assert_eq!(data, vec![page as u8; 4]);
        q.complete();
    }
    let (p, _) = q.next().unwrap();
    assert_eq!(p, 5);
    q.fail();
    assert!(q.next().is_none());
    assert!(matches!(q.submit(7, &[7u8; 4]), Submit::Failed(5)));
    assert!(q.next().is_none());
    assert!(queued(q.submit(7, &[7u8; 4])));
    assert!(queued(q.submit(8, &[8u8; 4])));
    let (p, data) = q.next().unwrap();
    assert_eq!((p, data), (7, vec![7u8; 4]));
    q.complete();
    let (p, _) = q.next().unwrap();
    assert_eq!(p, 8);
    q.complete();
    assert_eq!(q.take_error(), None);
}

#[test]
fn full_queue_refuses_until_drained() {
    let mut q = AsyncIOImpl::new(2);
    assert!(queued(q.submit(1, &[1])));
    assert!(queued(q.submit(2, &[2])));
    assert!(matches!(q.submit(3, &[3]), Submit::Full));
    q.complete();
    assert!(queued(q.submit(3, &[3])));
}

#[test]
fn reads_see_newest_queued_write() {
    let mut q = AsyncIOImpl::new(4);
    assert!(queued(q.submit(3, &[1, 1])));
    assert!(queued(q.submit(4, &[9, 9])));
    assert!(queued(q.submit(3, &[2, 2])));
    assert_eq!(q.lookup(3), Some(vec![2, 2]));
    assert_eq!(q.lookup(4), Some(vec![9, 9]));
    assert_eq!(q.lookup(5), None);
    q.complete();
    assert_eq!(q.lookup(3), Some(vec![2, 2]));
}

#[test]
fn worker_stops_only_when_told_and_empty() {
    let mut q = AsyncIOImpl::new(2);
    assert!(!q.is_done());
    assert!(queued(q.submit(1, &[0])));
    q.finish();
    assert!(!q.is_done());
    q.complete();
    assert!(q.is_done());
}

#[test]
fn queued_backend_reads_its_pending_writes() {
    let mut q = QueuedIO::new(vec![1u8; 10], 4, 2);
    assert_eq!(q.len(), 10);
    let mut block = vec![0xAAu8; 4];
    assert_eq!(q.read(2, &mut block), 2);
    assert_eq!(block, vec![1, 1, 0xAA, 0xAA]);
    q.write(2, &vec![7u8; 4]);
    assert_eq!(q.len(), 12);
    assert_eq!(q.read(2, &mut block), 4);
    assert_eq!(block, vec![7u8; 4]);
    q.write(5, &vec![9u8; 4]);
    assert_eq!(q.len(), 24);
    let mut block = vec![0xAAu8; 4];
    assert_eq!(q.read(3, &mut block), 4);
    assert_eq!(block, vec![0u8; 4]);
    q.write(2, &vec![8u8; 4]);
    let mut block = vec![0u8; 4];
    assert_eq!(q.read(2, &mut block), 4);
    assert_eq!(block, vec![8u8; 4]);
    let out = q.into_inner();
    let mut expected = vec![1u8; 8];
    expected.extend_from_slice(&[8u8; 4]);
    expected.extend_from_slice(&[0u8; 8]);
    expected.extend_from_slice(&[9u8; 4]);
    assert_eq!(out, expected);
}

#[test]
fn cache_over_queued_backend_round_trips() {
    let source: Vec<u8> = (0..64u8).collect();
    let mut direct = source.clone();
    let io = QueuedIO::new(source, 8, 2);
    let config = CacheConfig { block_size: 8, associativity: Associativity::NWay(2), write_through: false };
    let mut c: CacheImpl<Scan, LRU, QueuedIO> = CacheImpl::new(io, config, 16);
    for (off, byte) in [(3u64, 0xA1u8), (17, 0xB2), (40, 0xC3), (9, 0xD4), (63, 0xE5)] {
        assert_eq!(c.write(off, &[byte, byte]), 2);
        let o = off as usize;
        direct[o] = byte;
        if o + 1 < direct.len() {
            direct[o + 1] = byte;
        } else {
            direct.push(byte);
        }
    }
    let mut buf = vec![0u8; 65];
    assert_eq!(c.read(0, 65, &mut buf), 65);
    assert_eq!(buf, direct);
    let out = c.into_inner().into_inner();
    assert_eq!(&out[0..65], &direct[..]);
    assert!(out[65..].iter().all(|b| *b == 0));
}
