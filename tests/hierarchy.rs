use cachesim::cache::{cache_access, geometry_is_valid, init, CacheBlock, Config, L1, L2};
use cachesim::codec::{
    convert_index_l1_to_l2, convert_index_l2_to_l1, convert_tag_l1_to_l2, convert_tag_l2_to_l1,
    get_index, get_tag,
};
use cachesim::definitions::{finish, AccessType, ClockOverflow, Ratio, Stats};
use cachesim::trace::simulate;

fn run(config: &mut Config, l1: &mut L1, l2: &mut L2, stats: &mut Stats, trace: &[(AccessType, u64)]) {
    for &(kind, address) in trace {
        assert_eq!(cache_access(kind, address, config, l1, l2, stats), Ok(()));
    }
}

fn l2_line(l2: &L2, set: usize, way: usize) -> CacheBlock {
    l2.cache[set * l2.ways + way]
}

#[test]
fn cold_reads_then_hit() {
    let (mut config, mut l1, mut l2) = init(4, 6, 2, 1);
    let mut stats = Stats::new();
    let trace = [(AccessType::Read, 0x00), (AccessType::Read, 0x04), (AccessType::Read, 0x00)];
    run(&mut config, &mut l1, &mut l2, &mut stats, &trace);
    assert_eq!(stats.accesses, 3);
    assert_eq!(stats.reads, 3);
    assert_eq!(stats.l1_read_misses, 2);
    assert_eq!(stats.l2_read_misses, 2);
    finish(&mut stats);
    assert_eq!(stats.read_misses, 4);
    assert_eq!(stats.misses, 4);
    assert_eq!(stats.l1_miss_rate(), Ratio { num: 2, den: 3 });
    assert_eq!(stats.l2_miss_rate(), Ratio { num: 2, den: 2 });
    assert_eq!(stats.miss_rate(), Ratio { num: 4, den: 3 });
}

#[test]
fn dirty_victim_is_written_back_once() {
    let (mut config, mut l1, mut l2) = init(4, 6, 2, 1);
    let mut stats = Stats::new();
    let trace = [(AccessType::Write, 0x00), (AccessType::Write, 0x20), (AccessType::Write, 0x40)];
    run(&mut config, &mut l1, &mut l2, &mut stats, &trace[..2]);
    assert_eq!(stats.write_backs, 0);
    assert!(l2_line(&l2, 0, 0).dirty && l2_line(&l2, 0, 1).dirty);
    run(&mut config, &mut l1, &mut l2, &mut stats, &trace[2..]);
    assert_eq!(stats.write_backs, 1);
    assert_eq!(stats.l2_write_misses, 3);
    // the oldest way was reused for the new block
    assert_eq!(l2_line(&l2, 0, 0).tag, 2);
    assert_eq!(l2_line(&l2, 0, 1).tag, 1);
}

#[test]
fn clean_victim_is_not_written_back() {
    let (mut config, mut l1, mut l2) = init(4, 6, 2, 1);
    let mut stats = Stats::new();
    let trace = [(AccessType::Read, 0x00), (AccessType::Read, 0x20), (AccessType::Read, 0x40)];
    run(&mut config, &mut l1, &mut l2, &mut stats, &trace);
    assert_eq!(stats.write_backs, 0);
}

#[test]
fn evicting_l2_block_invalidates_its_l1_copy() {
    // L1 with 16 lines, so blocks 0 and 8 use distinct L1 lines; one L2 way per set.
    let (mut config, mut l1, mut l2) = init(6, 5, 2, 0);
    let mut stats = Stats::new();
    run(&mut config, &mut l1, &mut l2, &mut stats, &[(AccessType::Write, 0x00)]);
    // hit in L1 as a write: L1 dirty, L2 copy untouched
    run(&mut config, &mut l1, &mut l2, &mut stats, &[(AccessType::Write, 0x00)]);
    assert!(l1.cache[0].dirty);
    assert!(l2_line(&l2, 0, 0).dirty);
    // block 8 shares L2 set 0 with block 0 (8 sets of one way) and evicts it
    run(&mut config, &mut l1, &mut l2, &mut stats, &[(AccessType::Read, 0x20)]);
    assert!(!l1.cache[0].valid);
    assert_eq!(stats.write_backs, 1);
}

#[test]
fn write_hit_leaves_l2_dirty_bit_until_l1_eviction() {
    let (mut config, mut l1, mut l2) = init(4, 6, 2, 1);
    let mut stats = Stats::new();
    run(&mut config, &mut l1, &mut l2, &mut stats, &[(AccessType::Read, 0x00)]);
    run(&mut config, &mut l1, &mut l2, &mut stats, &[(AccessType::Write, 0x00)]);
    assert!(l1.cache[0].dirty);
    assert!(!l2_line(&l2, 0, 0).dirty);
    // block 4 takes L1 line 0 and sits in L2 set 4: the dirty fact moves to L2
    run(&mut config, &mut l1, &mut l2, &mut stats, &[(AccessType::Read, 0x10)]);
    assert!(l2_line(&l2, 0, 0).dirty);
    assert_eq!(l1.cache[0].tag, 1);
    assert!(!l1.cache[0].dirty);
}

#[test]
fn l1_hit_refreshes_l2_recency() {
    // two L2 sets of two ways; blocks 0, 2 and 4 share set 0 but not L1 lines
    let (mut config, mut l1, mut l2) = init(5, 4, 2, 1);
    let mut stats = Stats::new();
    let trace = [
        (AccessType::Read, 0x00),
        (AccessType::Read, 0x08),
        (AccessType::Read, 0x00),
        (AccessType::Read, 0x10),
    ];
    run(&mut config, &mut l1, &mut l2, &mut stats, &trace);
    // block 1 was the least recently used and gave way to block 2
    assert_eq!(l2_line(&l2, 0, 0).tag, 0);
    assert_eq!(l2_line(&l2, 0, 1).tag, 2);
}

#[test]
fn clock_overflow_is_reported() {
    let (mut config, mut l1, mut l2) = init(4, 6, 2, 1);
    let mut stats = Stats::new();
    config.cache_clock = u64::MAX;
    stats.accesses = 0;
    assert_eq!(
        cache_access(AccessType::Read, 0x10, &mut config, &mut l1, &mut l2, &mut stats),
        Err(ClockOverflow)
    );
    assert_eq!(stats.accesses, 0);
    assert_eq!(config.cache_clock, u64::MAX);
}

#[test]
fn replays_agree() {
    let trace = vec![
        (AccessType::Write, 0x1234),
        (AccessType::Read, 0xff00),
        (AccessType::Write, 0x1238),
        (AccessType::Read, 0x0),
        (AccessType::Write, 0xff04),
    ];
    let a = simulate(10, 15, 5, 3, &trace);
    let b = simulate(10, 15, 5, 3, &trace);
    assert_eq!(a, b);
    assert_eq!(a.accesses, 5);
    assert_eq!(a.l1_write_misses, 1);
    assert_eq!(a.l1_read_misses, 2);
}

#[test]
fn simulate_matches_step_by_step() {
    let trace = vec![(AccessType::Read, 0x00), (AccessType::Read, 0x04), (AccessType::Read, 0x00)];
    let st = simulate(4, 6, 2, 1, &trace);
    assert_eq!(st.l1_read_misses, 2);
    assert_eq!(st.l2_read_misses, 2);
    assert_eq!(st.accesses, 3);
}

#[test]
fn access_time_formulas() {
    let mut st = Stats::new();
    st.accesses = 10;
    st.l1_read_misses = 3;
    st.l1_write_misses = 1;
    st.l2_read_misses = 1;
    st.l2_write_misses = 1;
    // l2 avg = 10 + (2/4) * 100 = 60 = 240/4
    assert_eq!(st.l2_avg_access_time(), Ratio { num: 240, den: 4 });
    // avg = 2 + (4/10) * 60 = 26 = 260/10
    assert_eq!(st.avg_access_time(), Ratio { num: 260, den: 10 });
}

#[test]
fn access_time_undefined_without_l1_misses() {
    let mut st = Stats::new();
    st.accesses = 5;
    assert_eq!(st.avg_access_time(), Ratio { num: 0, den: 0 });
    assert_eq!(st.l2_miss_rate(), Ratio { num: 0, den: 0 });
}

#[test]
fn address_codec() {
    assert_eq!(get_tag(0xabcd, 10, 0), 0xabcd >> 10);
    assert_eq!(get_index(0xabcd, 10, 5, 0), (0xabcd >> 5) & 0x1f);
    assert_eq!(get_index(0xabcd, 15, 5, 3), (0xabcd >> 5) & 0x7f);
    let (config, _, _) = init(10, 15, 5, 3);
    let blk: u64 = 0xabcd >> 5;
    let (t1, i1) = (blk >> 5, blk & 0x1f);
    assert_eq!(convert_tag_l1_to_l2(t1, i1, &config), blk >> 7);
    assert_eq!(convert_index_l1_to_l2(t1, i1, &config), blk & 0x7f);
    assert_eq!(convert_tag_l2_to_l1(blk >> 7, blk & 0x7f, &config), t1);
    assert_eq!(convert_index_l2_to_l1(blk >> 7, blk & 0x7f, &config), i1);
}

#[test]
fn geometry_checks() {
    assert!(geometry_is_valid(10, 15, 5, 3));
    assert!(geometry_is_valid(4, 6, 2, 1));
    assert!(!geometry_is_valid(5, 15, 5, 3));
    assert!(!geometry_is_valid(10, 8, 5, 3));
    assert!(!geometry_is_valid(64, 15, 5, 3));
}

#[test]
fn init_sizes() {
    let (config, l1, l2) = init(10, 15, 5, 3);
    assert_eq!(config.cache_clock, 0);
    assert_eq!(l1.cache.len(), 32);
    assert_eq!(l2.ways, 8);
    assert_eq!(l2.cache.len(), 1024 / 8 * 8);
    assert!(l1.cache.iter().all(|b| *b == CacheBlock::new()));
}

#[test]
fn same_l1_index_holds_one_block() {
    // 0x00 and 0x10 are blocks 0 and 4: both L1 index 0, L1 tags 0 and 1
    let (mut config, mut l1, mut l2) = init(4, 6, 2, 1);
    let mut stats = Stats::new();
    let trace = [(AccessType::Read, 0x00), (AccessType::Read, 0x10), (AccessType::Read, 0x00)];
    run(&mut config, &mut l1, &mut l2, &mut stats, &trace[..2]);
    assert_eq!(get_index(0x00, 4, 2, 0), get_index(0x10, 4, 2, 0));
    assert!(l1.cache[0].valid);
    assert_eq!(l1.cache[0].tag, get_tag(0x10, 4, 0));
    // the first block left L1 but stayed in L2
    run(&mut config, &mut l1, &mut l2, &mut stats, &trace[2..]);
    assert_eq!(stats.l1_read_misses, 3);
    assert_eq!(stats.l2_read_misses, 2);
}

#[test]
fn every_valid_l1_block_is_in_l2() {
    let (mut config, mut l1, mut l2) = init(5, 5, 2, 1);
    let mut stats = Stats::new();
    let mut trace = Vec::new();
    for i in 0..200u64 {
        let kind = if i % 3 == 0 { AccessType::Write } else { AccessType::Read };
        trace.push((kind, (i * 0x2c + (i % 7) * 0x40) % 0x400));
    }
    run(&mut config, &mut l1, &mut l2, &mut stats, &trace);
    for (index, line) in l1.cache.iter().enumerate() {
        if line.valid {
            let tag = convert_tag_l1_to_l2(line.tag, index as u64, &config);
            let set = convert_index_l1_to_l2(line.tag, index as u64, &config) as usize;
            assert!((0..l2.ways).any(|w| {
                let b = l2_line(&l2, set, w);
                b.valid && b.tag == tag
            }));
        }
    }
    assert_eq!(stats.accesses, 200);
}
