use io_cache::hash::{hash64, NULL};
use io_cache::heap::{lfu_cmp, LFU};
use io_cache::lookup::{DMLookup, FATable, Lookup, Scan, Table};
use io_cache::replace::{DMReplace, FARandom, FAFIFO, Random, Replace, FIFO, LRU};
use io_cache::set::NWaySets;

#[test]
fn hash64_known_values() {
    assert_eq!(hash64(0), 0x5692161d100b05e5);
    assert_eq!(hash64(5), 0xd17707977078336c);
    assert_eq!(hash64(u64::MAX), 0);
}

#[test]
fn table_finds_inserted_and_forgets_removed() {
    let mut t = Table::new(4);
    for (page, frame) in [(10u64, 0usize), (20, 1), (30, 2), (40, 3)] {
        t.insert(page, frame);
    }
    assert_eq!(t.find(30), 2);
    assert_eq!(t.find(99), NULL);
    t.remove(30, 2);
    assert_eq!(t.find(30), NULL);
    assert_eq!(t.find(40), 3);
    t.insert(50, 2);
    assert_eq!(t.find(50), 2);
    assert_eq!(t.find(10), 0);
}

#[test]
fn fully_associative_table_with_one_frame() {
    let mut t = FATable::new(1);
    assert_eq!(t.find(7), NULL);
    t.insert(7, 0);
    assert_eq!(t.find(7), 0);
    t.remove(7, NULL);
    assert_eq!(t.find(7), NULL);
    t.insert(8, 0);
    assert_eq!(t.find(8), 0);
}

#[test]
fn scan_uses_hint_or_searches() {
    let mut s = Scan::new(3);
    s.insert(5, 1);
    s.insert(6, 2);
    assert_eq!(s.find(5), 1);
    s.remove(5, NULL);
    assert_eq!(s.find(5), NULL);
    s.remove(6, 2);
    assert_eq!(s.find(6), NULL);
}

#[test]
fn direct_mapped_lookup_and_policy_answer_frame_zero() {
    let mut l = DMLookup::new(1);
    assert_eq!(l.find(3), 0);
    l.insert(3, 0);
    assert_eq!(l.find(3), 0);
    let mut r = DMReplace::new(1);
    assert_eq!(r.replace(), 0);
}

#[test]
fn lru_victim_is_least_recently_used() {
    let mut r = LRU::new(3);
    r.record_access(0);
    assert_eq!(r.replace(), 1);
    assert_eq!(r.replace(), 2);
    r.record_access(1);
    assert_eq!(r.replace(), 0);
    assert_eq!(r.replace(), 2);
}

#[test]
fn lfu_victim_has_smallest_count() {
    let mut r = LFU::new(4);
    for f in [0usize, 0, 0, 1, 1, 3, 3] {
        r.record_access(f);
    }
    assert_eq!(r.replace(), 2);
    r.record_access(2);
    r.record_access(2);
    r.record_access(2);
    r.record_access(2);
    assert_eq!(r.replace(), 1);
}

#[test]
fn lfu_compare_is_three_way() {
    assert_eq!(lfu_cmp(&1, &2), -1);
    assert_eq!(lfu_cmp(&2, &2), 0);
    assert_eq!(lfu_cmp(&3, &2), 1);
}

#[test]
fn fifo_cycles_through_frames() {
    let mut r = FIFO::new(4);
    let got: Vec<usize> = (0..6).map(|_| r.replace()).collect();
    assert_eq!(got, vec![0, 1, 2, 3, 0, 1]);
    let mut f = FAFIFO::new(3);
    let got: Vec<usize> = (0..5).map(|_| f.replace()).collect();
    assert_eq!(got, vec![0, 1, 2, 0, 1]);
}

#[test]
fn random_policies_follow_the_xorshift_register() {
    let mut r = Random::new(4);
    assert_eq!(r.replace(), 0);
    assert_eq!(r.replace(), 2);
    let mut f = FARandom::new(3);
    assert_eq!(f.replace(), 1);
    assert_eq!(f.replace(), 2);
}

#[test]
fn budget_counts_page_data_only() {
    let s: NWaySets<Scan, LRU> = NWaySets::new(2, 8, 100);
    assert_eq!(s.count(), 6);
    assert_eq!(s.data_mem(), 96);
    assert_eq!(s.meta_mem(), 64 + 6 * (128 + 2 * (8 + 16 + 16)));
}

#[test]
fn strict_budget_counts_metadata_too() {
    let s: NWaySets<Scan, LRU> = NWaySets::new_strict(2, 8, 1000);
    assert_eq!(s.count(), 4);
    assert_eq!(s.total_mem(), 960);
    assert!(s.total_mem() <= 1000);
    let t: NWaySets<Table, LFU> = NWaySets::new_strict(4, 16, 4096);
    assert_eq!(t.count(), (4096 - 64) / (4 * 16 + 128 + 4 * (32 + 24 + 16)));
    assert!(t.total_mem() <= 4096);
}
