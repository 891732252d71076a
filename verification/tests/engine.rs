use lametrobusping::calc_percentiles;
use lametrobusping::retention_cutoff;
use lametrobusping::ChunkFile;
use lametrobusping::LiveIndex;
use lametrobusping::Percentiles;
use lametrobusping::Record;
use lametrobusping::SystemStats;
use lametrobusping::WindowAggregator;

fn rec(interval: u16, end_of_interval: u64, rank: u8) -> Record {
    Record { interval, end_of_interval, latency: 0, rank }
}

fn zero_percentiles() -> Percentiles {
    Percentiles {
        p0: 0,
        p25: 0,
        p50: 0,
        p75: 0,
        p80: 0,
        p85: 0,
        p90: 0,
        p95: 0,
        p98: 0,
        p99: 0,
        p99_5: 0,
        p99_9: 0,
    }
}

fn stats_at(timestamp: u64) -> SystemStats {
    SystemStats {
        timestamp,
        interval_stats: zero_percentiles(),
        latency_stats: zero_percentiles(),
        sample_count: 0,
    }
}

fn chunk(timestamp: u64, records: Vec<(String, Vec<Record>)>) -> ChunkFile {
    ChunkFile { stats: stats_at(timestamp), records }
}

#[test]
fn percentiles_of_five_samples() {
    let mut samples: Vec<u16> = vec![5, 1, 9, 3, 7];
    let p = calc_percentiles(&mut samples);
    assert_eq!(samples, vec![1, 3, 5, 7, 9]);
    assert_eq!(p.p0, 1);
    assert_eq!(p.p25, 3);
    assert_eq!(p.p50, 5);
    assert_eq!(p.p75, 7);
    assert_eq!(p.p80, 7);
    assert_eq!(p.p85, 7);
    assert_eq!(p.p90, 9);
    assert_eq!(p.p95, 9);
    assert_eq!(p.p98, 9);
    assert_eq!(p.p99, 9);
    assert_eq!(p.p99_5, 9);
    assert_eq!(p.p99_9, 9);
}

#[test]
fn percentiles_non_decreasing() {
    let mut samples: Vec<u16> = vec![400, 2, 2, 90, 65535, 13, 13, 13, 1000, 7];
    let p = calc_percentiles(&mut samples);
    let bps = [
        p.p0, p.p25, p.p50, p.p75, p.p80, p.p85, p.p90, p.p95, p.p98, p.p99, p.p99_5, p.p99_9,
    ];
    for w in bps.windows(2) {
        assert!(w[0] <= w[1]);
    }
}

#[test]
fn percentiles_of_empty_input_are_zero() {
    let mut samples: Vec<u16> = Vec::new();
    let p = calc_percentiles(&mut samples);
    assert_eq!(p, zero_percentiles());
}

#[test]
fn rank_on_breakpoint_takes_next_band() {
    let p = Percentiles {
        p0: 10,
        p25: 20,
        p50: 30,
        p75: 40,
        p80: 50,
        p85: 60,
        p90: 70,
        p95: 80,
        p98: 90,
        p99: 100,
        p99_5: 110,
        p99_9: 120,
    };
    assert_eq!(p.get_rank(9), 0);
    assert_eq!(p.get_rank(10), 25);
    assert_eq!(p.get_rank(20), 50);
    assert_eq!(p.get_rank(30), 75);
    assert_eq!(p.get_rank(40), 80);
    assert_eq!(p.get_rank(50), 85);
    assert_eq!(p.get_rank(60), 90);
    assert_eq!(p.get_rank(70), 95);
    assert_eq!(p.get_rank(80), 98);
    assert_eq!(p.get_rank(90), 99);
    // the bands at and above the 99th percentile are collapsed
    assert_eq!(p.get_rank(100), 99);
    assert_eq!(p.get_rank(110), 100);
    assert_eq!(p.get_rank(120), 100);
    assert_eq!(p.get_rank(65535), 100);
}

#[test]
fn interval_saturates_at_u16_max() {
    let mut agg = WindowAggregator::new();
    let bus = String::from("900");
    agg.observe(&bus, 1_000, 1_000);
    agg.observe(&bus, 71_000, 71_000); // 70000 seconds later
    let chunk = agg.flush(71_060);
    assert_eq!(chunk.records.len(), 1);
    assert_eq!(chunk.records[0].0, bus);
    assert_eq!(chunk.records[0].1.len(), 1);
    assert_eq!(chunk.records[0].1[0].interval, 65535);
}

#[test]
fn latency_saturates_and_clamps_at_zero() {
    let mut agg = WindowAggregator::new();
    let bus = String::from("901");
    agg.observe(&bus, 1_000, 1_000);
    // dataset timestamp far ahead of the vehicle timestamp
    agg.observe(&bus, 1_010, 80_000);
    // dataset timestamp behind the vehicle timestamp: latency clamps to 0
    agg.observe(&bus, 1_020, 900);
    let chunk = agg.flush(1_060);
    let recs = &chunk.records[0].1;
    assert_eq!(recs.len(), 2);
    assert_eq!(recs[0].latency, 65535);
    assert_eq!(recs[1].latency, 0);
}

#[test]
fn stale_samples_are_discarded() {
    let mut agg = WindowAggregator::new();
    let bus = String::from("902");
    agg.observe(&bus, 1_000, 1_000);
    agg.observe(&bus, 1_000, 1_001); // equal timestamp: discarded
    agg.observe(&bus, 990, 1_001); // older timestamp: discarded
    let chunk = agg.flush(1_060);
    assert_eq!(chunk.records.len(), 0);
    assert_eq!(chunk.stats.sample_count, 0);
}

#[test]
fn merge_same_timestamp_only_once() {
    let mut index = LiveIndex::new();
    let bus = String::from("a");
    let c1 = chunk(100, vec![(bus.clone(), vec![rec(5, 90, 95)])]);
    let c2 = chunk(100, vec![(bus.clone(), vec![rec(7, 95, 95)])]);
    assert!(index.merge_chunk(&c1));
    assert!(!index.merge_chunk(&c2));
    assert!(!index.merge_chunk(&c1));
    let history = index.get_history(&bus);
    assert_eq!(history.len(), 1);
    assert_eq!(history[0].interval, 5);
    assert_eq!(index.current_watermark(), 100);
}

#[test]
fn merge_appends_per_entity_history() {
    let mut index = LiveIndex::new();
    let bus = String::from("b");
    let c1 = chunk(100, vec![(bus.clone(), vec![rec(5, 90, 95), rec(6, 95, 50)])]);
    let c2 = chunk(200, vec![(bus.clone(), vec![rec(7, 190, 98)])]);
    assert!(index.merge_chunk(&c1));
    assert!(index.merge_chunk(&c2));
    let history = index.get_history(&bus);
    assert_eq!(history.len(), 3);
    assert_eq!(history[0].interval, 5);
    assert_eq!(history[1].interval, 6);
    assert_eq!(history[2].interval, 7);
    let stats = index.get_stats();
    assert_eq!(stats.len(), 2);
    assert_eq!(stats[0].timestamp, 100);
    assert_eq!(stats[1].timestamp, 200);
}

#[test]
fn prune_drops_expired_and_empty_entities() {
    let mut index = LiveIndex::new();
    let old_bus = String::from("old");
    let new_bus = String::from("new");
    let c = chunk(
        250,
        vec![
            (old_bus.clone(), vec![rec(5, 100, 95)]),
            (new_bus.clone(), vec![rec(6, 100, 95), rec(7, 200, 95)]),
        ],
    );
    assert!(index.merge_chunk(&c));
    index.prune(150);
    // only the record at timestamp 200 survives; "old" is removed entirely
    assert_eq!(index.get_history(&old_bus).len(), 0);
    let kept = index.get_history(&new_bus);
    assert_eq!(kept.len(), 1);
    assert_eq!(kept[0].end_of_interval, 200);
    assert!(kept[0].end_of_interval >= 150);
    let stats = index.get_stats();
    assert_eq!(stats.len(), 1);
    assert!(stats[0].timestamp >= 150);
    // prune everything: all queries come back empty
    index.prune(1_000);
    assert_eq!(index.get_history(&new_bus).len(), 0);
    assert_eq!(index.get_stats().len(), 0);
    assert_eq!(index.get_anomalies(0).len(), 0);
}

#[test]
fn anomaly_score_counts_only_high_ranks() {
    let mut index = LiveIndex::new();
    let bus = String::from("A");
    let c = chunk(
        400,
        vec![(bus.clone(), vec![rec(10, 100, 95), rec(20, 200, 60), rec(30, 300, 98)])],
    );
    assert!(index.merge_chunk(&c));
    let result = index.get_anomalies(90);
    assert_eq!(result.len(), 1);
    assert_eq!(result[0].bus_id, bus);
    assert_eq!(result[0].score, 40); // 10 + 30, the rank-60 record excluded
    assert_eq!(result[0].history.len(), 3);
}

#[test]
fn anomaly_zero_score_entities_are_dropped() {
    let mut index = LiveIndex::new();
    let bus = String::from("z");
    let c = chunk(400, vec![(bus.clone(), vec![rec(0, 100, 95)])]);
    assert!(index.merge_chunk(&c));
    assert_eq!(index.get_anomalies(90).len(), 0);
}

#[test]
fn anomaly_results_sorted_and_capped_at_fifty() {
    let mut index = LiveIndex::new();
    let mut records: Vec<(String, Vec<Record>)> = Vec::new();
    for i in 0..60u16 {
        records.push((format!("bus{}", i), vec![rec(i + 1, 100, 100)]));
    }
    let c = chunk(400, records);
    assert!(index.merge_chunk(&c));
    let result = index.get_anomalies(90);
    assert_eq!(result.len(), 50);
    assert_eq!(result[0].score, 60);
    for w in result.windows(2) {
        assert!(w[0].score >= w[1].score);
    }
    // the ten smallest scores (1..=10) were cut off
    assert_eq!(result[49].score, 11);
}

#[test]
fn anomaly_min_rank_filters_candidates() {
    let mut index = LiveIndex::new();
    let low = String::from("low");
    let high = String::from("high");
    let c = chunk(
        400,
        vec![
            (low.clone(), vec![rec(10, 100, 50)]),
            (high.clone(), vec![rec(10, 100, 95)]),
        ],
    );
    assert!(index.merge_chunk(&c));
    let result = index.get_anomalies(90);
    assert_eq!(result.len(), 1);
    assert_eq!(result[0].bus_id, high);
    // lowering the threshold brings the second entity in
    let all = index.get_anomalies(0);
    assert_eq!(all.len(), 2);
}

#[test]
fn end_to_end_two_windows() {
    let mut agg = WindowAggregator::new();
    let bus = String::from("4012");
    // first window: the entity is seen for the first time, no record yet
    agg.observe(&bus, 1_000, 1_000);
    let c1 = agg.flush(1_060);
    assert_eq!(c1.records.len(), 0);
    // second window: an update 10 seconds after the first
    agg.observe(&bus, 1_010, 1_012);
    let c2 = agg.flush(1_120);
    assert_eq!(c2.records.len(), 1);
    assert_eq!(c2.records[0].1.len(), 1);
    let record = c2.records[0].1[0];
    assert_eq!(record.interval, 10);
    assert_eq!(record.end_of_interval, 1_010);
    assert_eq!(record.latency, 2);
    // the single sample of its window sits in the top outlier band
    assert_eq!(record.rank, 100);
    assert!(c1.check_wf());
    assert!(c2.check_wf());
    let mut index = LiveIndex::new();
    assert!(index.merge_chunk(&c1));
    assert!(index.merge_chunk(&c2));
    let history = index.get_history(&bus);
    assert_eq!(history.len(), 1);
    assert_eq!(history[0], record);
    let top = index.get_anomalies(100);
    assert_eq!(top.len(), 1);
    assert_eq!(top[0].bus_id, bus);
    assert_eq!(top[0].score, 10);
}

#[test]
fn chunk_check_wf_rejects_invalid_chunks() {
    let bus = String::from("c");
    let good = chunk(100, vec![(bus.clone(), vec![rec(1, 50, 95)])]);
    assert!(good.check_wf());
    let empty_entity = chunk(100, vec![(bus.clone(), Vec::new())]);
    assert!(!empty_entity.check_wf());
    let bad_rank = chunk(100, vec![(bus.clone(), vec![rec(1, 50, 101)])]);
    assert!(!bad_rank.check_wf());
    let out_of_order = chunk(100, vec![(bus.clone(), vec![rec(1, 50, 95), rec(1, 40, 95)])]);
    assert!(!out_of_order.check_wf());
    let dup_keys = chunk(
        100,
        vec![(bus.clone(), vec![rec(1, 50, 95)]), (bus.clone(), vec![rec(1, 60, 95)])],
    );
    assert!(!dup_keys.check_wf());
}

#[test]
fn retention_cutoff_is_48_hours() {
    assert_eq!(retention_cutoff(200_000), 27_200);
    assert_eq!(retention_cutoff(172_800), 0);
    assert_eq!(retention_cutoff(1_000), 0);
    assert_eq!(lametrobusping::RETENTION_SECONDS, 48 * 3600);
}

#[test]
fn sample_count_matches_accepted_samples() {
    let mut agg = WindowAggregator::new();
    let a = String::from("s1");
    let b = String::from("s2");
    agg.observe(&a, 1_000, 1_000);
    agg.observe(&b, 1_000, 1_000);
    agg.observe(&a, 1_010, 1_010);
    agg.observe(&b, 1_020, 1_020);
    agg.observe(&a, 1_030, 1_030);
    let c = agg.flush(1_060);
    assert_eq!(c.stats.sample_count, 3);
    // interval percentiles computed from the three accepted samples 10, 10, 20
    assert_eq!(c.stats.interval_stats.p0, 10);
    assert_eq!(c.stats.interval_stats.p99_9, 20);
}
