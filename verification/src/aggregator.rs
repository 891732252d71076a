//! Accumulation of raw per-entity deltas during one aggregation window, and
//! production of the window's immutable chunk at window close.
use vstd::prelude::*;
use crate::model::ChunkFile;
use crate::model::Record;
use crate::model::SystemStats;
use crate::model::chunk_wf;
use crate::model::lookup_recs;
use crate::model::lookup_ts;
use crate::model::rec_fits;
use crate::model::records_ascending;
use crate::model::sat16;
use crate::model::table_has_key;
use crate::model::table_index;
use crate::model::table_keys_unique;
use crate::model::table_push_record;
use crate::model::table_set_ts;
use crate::model::lemma_table_index_unique;
use crate::percentile::breakpoints_ordered;
use crate::percentile::calc_percentiles;
use crate::percentile::spec_percentiles;
use crate::percentile::spec_rank;
use crate::percentile::zero_percentiles;

verus! {

/// The record that one accepted sample produces, before rank assignment.
pub open spec fn observed_record(prev: u64, vehicle_ts: u64, dataset_ts: u64) -> Record {
    Record {
        interval: sat16(vehicle_ts - prev),
        end_of_interval: vehicle_ts,
        latency: sat16(
            if dataset_ts > vehicle_ts {
                dataset_ts - vehicle_ts
            } else {
                0
            },
        ),
        rank: 0u8,
    }
}

/// Per-window aggregation state: the last timestamp seen for each entity,
/// the provisional records of the open window, and the raw interval and
/// latency samples from which the window's percentiles are computed.
pub struct WindowAggregator {
    last_updates: Vec<(String, u64)>,
    current: Vec<(String, Vec<Record>)>,
    interval_samples: Vec<u16>,
    latency_samples: Vec<u16>,
}

impl WindowAggregator {
    /// Last timestamp seen per entity; survives window close.
    pub closed spec fn last_seen(&self) -> Seq<(String, u64)> {
        self.last_updates@
    }

    /// Provisional records of the open window, per entity.
    pub closed spec fn pending(&self) -> Seq<(String, Vec<Record>)> {
        self.current@
    }

    /// Raw interval samples of the open window.
    pub closed spec fn intervals(&self) -> Seq<u16> {
        self.interval_samples@
    }

    /// Raw latency samples of the open window.
    pub closed spec fn latencies(&self) -> Seq<u16> {
        self.latency_samples@
    }

    /// Internal invariant: unique keys in both tables; every pending entry is
    /// non-empty, time-ascending, and bounded by the entity's last-seen
    /// timestamp; one interval sample per latency sample.
    pub closed spec fn wf(&self) -> bool {
        &&& table_keys_unique(self.last_updates@)
        &&& table_keys_unique(self.current@)
        &&& forall|i: int| 0 <= i < self.current@.len() ==> self.current@[i].1@.len() > 0
        &&& forall|i: int| 0 <= i < self.current@.len() ==> records_ascending(self.current@[i].1@)
        &&& forall|i: int|
            0 <= i < self.current@.len() ==> table_has_key(
                self.last_updates@,
                self.current@[i].0@,
            ) && self.current@[i].1@.last().end_of_interval <= lookup_ts(
                self.last_updates@,
                self.current@[i].0@,
            )
        &&& self.interval_samples@.len() == self.latency_samples@.len()
    }

    /// A fresh aggregator with no entities and an empty window.
    pub fn new() -> (r: WindowAggregator)
        ensures
            r.wf(),
            r.last_seen().len() == 0,
            r.pending().len() == 0,
            r.intervals().len() == 0,
            r.latencies().len() == 0,
    {
        WindowAggregator {
            last_updates: Vec::new(),
            current: Vec::new(),
            interval_samples: Vec::new(),
            latency_samples: Vec::new(),
        }
    }

    /// Consumes one feed sample for `bus_id`. A first-ever sample only
    /// records the last-seen timestamp; a stale sample (not newer than the
    /// stored timestamp) is discarded entirely; a fresh sample appends a
    /// provisional record with saturated interval and latency, adds both raw
    /// values to the window's sample collections, and advances the last-seen
    /// timestamp.
    pub fn observe(&mut self, bus_id: &String, vehicle_ts: u64, dataset_ts: u64)
        requires
            old(self).wf(),
        ensures
            final(self).wf(),
            !table_has_key(old(self).last_seen(), bus_id@) ==> {
                &&& final(self).last_seen() == old(self).last_seen().push((*bus_id, vehicle_ts))
                &&& final(self).pending() == old(self).pending()
                &&& final(self).intervals() == old(self).intervals()
                &&& final(self).latencies() == old(self).latencies()
            },
            (table_has_key(old(self).last_seen(), bus_id@) && vehicle_ts <= lookup_ts(
                old(self).last_seen(),
                bus_id@,
            )) ==> {
                &&& final(self).last_seen() == old(self).last_seen()
                &&& final(self).pending() == old(self).pending()
                &&& final(self).intervals() == old(self).intervals()
                &&& final(self).latencies() == old(self).latencies()
            },
            (table_has_key(old(self).last_seen(), bus_id@) && vehicle_ts > lookup_ts(
                old(self).last_seen(),
                bus_id@,
            )) ==> {
                let rec = observed_record(
                    lookup_ts(old(self).last_seen(), bus_id@),
                    vehicle_ts,
                    dataset_ts,
                );
                &&& table_has_key(final(self).pending(), bus_id@)
                &&& lookup_recs(final(self).pending(), bus_id@) == lookup_recs(
                    old(self).pending(),
                    bus_id@,
                ).push(rec)
                &&& forall|k: Seq<char>|
                    k != bus_id@ ==> (table_has_key(final(self).pending(), k) <==> table_has_key(
                        old(self).pending(),
                        k,
                    ))
                &&& forall|k: Seq<char>|
                    k != bus_id@ && table_has_key(old(self).pending(), k) ==> lookup_recs(
                        final(self).pending(),
                        k,
                    ) == lookup_recs(old(self).pending(), k)
                &&& final(self).intervals() == old(self).intervals().push(rec.interval)
                &&& final(self).latencies() == old(self).latencies().push(rec.latency)
                &&& table_has_key(final(self).last_seen(), bus_id@)
                &&& lookup_ts(final(self).last_seen(), bus_id@) == vehicle_ts
                &&& forall|k: Seq<char>|
                    k != bus_id@ ==> (table_has_key(final(self).last_seen(), k) <==> table_has_key(
                        old(self).last_seen(),
                        k,
                    ))
                &&& forall|k: Seq<char>|
                    k != bus_id@ && table_has_key(old(self).last_seen(), k) ==> lookup_ts(
                        final(self).last_seen(),
                        k,
                    ) == lookup_ts(old(self).last_seen(), k)
            },
    {
        let found = find_ts(&self.last_updates, bus_id);
        match found {
            None => {
                let ghost pre = self.last_updates@;
                self.last_updates.push((bus_id.clone(), vehicle_ts));
                proof {
                    assert(self.last_updates@ =~= pre.push((*bus_id, vehicle_ts)));
                    assert forall|i: int|
                        0 <= i < self.current@.len() implies table_has_key(
                        self.last_updates@,
                        self.current@[i].0@,
                    ) && self.current@[i].1@.last().end_of_interval <= lookup_ts(
                        self.last_updates@,
                        self.current@[i].0@,
                    ) by {
                        let k = self.current@[i].0@;
                        let a = table_index(pre, k);
                        assert(pre[a].0@ == k);
                        assert(self.last_updates@[a].0@ == k);
                        lemma_table_index_unique(self.last_updates@, k, a);
                    }
                }
            },
            Some(prev) => {
                if vehicle_ts > prev {
                    let interval_raw = vehicle_ts - prev;
                    let interval: u16 = if interval_raw > 65535 {
                        65535
                    } else {
                        interval_raw as u16
                    };
                    let latency_raw = if dataset_ts > vehicle_ts {
                        dataset_ts - vehicle_ts
                    } else {
                        0
                    };
                    let latency: u16 = if latency_raw > 65535 {
                        65535
                    } else {
                        latency_raw as u16
                    };
                    let rec = Record { interval, end_of_interval: vehicle_ts, latency, rank: 0 };
                    let ghost pre_cur = self.current@;
                    let ghost pre_last = self.last_updates@;
                    proof {
                        assert(rec == observed_record(prev, vehicle_ts, dataset_ts));
                        assert(rec_fits(pre_cur, bus_id@, rec)) by {
                            if table_has_key(pre_cur, bus_id@) {
                                let a = table_index(pre_cur, bus_id@);
                                assert(lookup_recs(pre_cur, bus_id@) == pre_cur[a].1@);
                            }
                        }
                    }
                    table_push_record(&mut self.current, bus_id, rec);
                    self.interval_samples.push(interval);
                    self.latency_samples.push(latency);
                    table_set_ts(&mut self.last_updates, bus_id, vehicle_ts);
                    proof {
                        assert forall|i: int|
                            0 <= i < self.current@.len() implies table_has_key(
                            self.last_updates@,
                            self.current@[i].0@,
                        ) && self.current@[i].1@.last().end_of_interval <= lookup_ts(
                            self.last_updates@,
                            self.current@[i].0@,
                        ) by {
                            let k = self.current@[i].0@;
                            lemma_table_index_unique(self.current@, k, i);
                            assert(lookup_recs(self.current@, k) == self.current@[i].1@);
                            if k == bus_id@ {
                                assert(lookup_recs(self.current@, k) == lookup_recs(
                                    pre_cur,
                                    k,
                                ).push(rec));
                            } else {
                                assert(table_has_key(pre_cur, k));
                                let a = table_index(pre_cur, k);
                                assert(pre_cur[a].0@ == k);
                                assert(lookup_recs(self.current@, k) == pre_cur[a].1@);
                                assert(table_has_key(pre_last, k));
                            }
                        }
                    }
                }
            },
        }
    }
    /// Closes the window at `chunk_ts`: computes the window's percentile
    /// statistics, assigns every provisional record its rank against the
    /// interval distribution, and returns the completed chunk. The window
    /// state is reset; the last-seen table survives.
    pub fn flush(&mut self, chunk_ts: u64) -> (chunk: ChunkFile)
        requires
            old(self).wf(),
        ensures
            final(self).wf(),
            final(self).pending().len() == 0,
            final(self).intervals().len() == 0,
            final(self).latencies().len() == 0,
            final(self).last_seen() == old(self).last_seen(),
            chunk_wf(&chunk),
            chunk.stats.timestamp == chunk_ts,
            chunk.stats.interval_stats == if old(self).intervals().len() == 0 {
                zero_percentiles()
            } else {
                spec_percentiles(old(self).intervals())
            },
            chunk.stats.latency_stats == if old(self).latencies().len() == 0 {
                zero_percentiles()
            } else {
                spec_percentiles(old(self).latencies())
            },
            breakpoints_ordered(chunk.stats.interval_stats),
            breakpoints_ordered(chunk.stats.latency_stats),
            chunk.stats.sample_count == if old(self).intervals().len() > u32::MAX {
                u32::MAX
            } else {
                old(self).intervals().len() as u32
            },
            chunk.records@.len() == old(self).pending().len(),
            forall|i: int|
                0 <= i < chunk.records@.len() ==> chunk.records@[i].0 == old(self).pending()[i].0,
            forall|i: int|
                0 <= i < chunk.records@.len() ==> chunk.records@[i].1@.len() == old(
                    self,
                ).pending()[i].1@.len(),
            forall|i: int, j: int|
                0 <= i < chunk.records@.len() && 0 <= j < chunk.records@[i].1@.len()
                    ==> #[trigger] chunk.records@[i].1@[j] == (Record {
                    rank: spec_rank(
                        chunk.stats.interval_stats,
                        old(self).pending()[i].1@[j].interval,
                    ),
                    ..old(self).pending()[i].1@[j]
                }),
    {
        let interval_stats = calc_percentiles(&mut self.interval_samples);
        let latency_stats = calc_percentiles(&mut self.latency_samples);
        let len = self.interval_samples.len();
        let sample_count: u32 = if len > u32::MAX as usize {
            u32::MAX
        } else {
            len as u32
        };
        let stats = SystemStats { timestamp: chunk_ts, interval_stats, latency_stats, sample_count };
        let ghost cur0 = self.current@;
        let n = self.current.len();
        let mut i: usize = 0;
        while i < n
            invariant
                0 <= i <= n,
                n == self.current@.len(),
                n == cur0.len(),
                self.last_updates@ == old(self).last_updates@,
                forall|a: int| i <= a < n ==> self.current@[a] == cur0[a],
                forall|a: int| 0 <= a < i ==> self.current@[a].0 == cur0[a].0,
                forall|a: int| 0 <= a < i ==> self.current@[a].1@.len() == cur0[a].1@.len(),
                forall|a: int, b: int|
                    0 <= a < i && 0 <= b < self.current@[a].1@.len() ==> self.current@[a].1@[b]
                        == (Record {
                        rank: spec_rank(interval_stats, cur0[a].1@[b].interval),
                        ..cur0[a].1@[b]
                    }),
            decreases n - i,
        {
            let m = self.current[i].1.len();
            let mut j: usize = 0;
            while j < m
                invariant
                    0 <= j <= m,
                    0 <= i < n,
                    n == self.current@.len(),
                    n == cur0.len(),
                    self.last_updates@ == old(self).last_updates@,
                    m == self.current@[i as int].1@.len(),
                    m == cur0[i as int].1@.len(),
                    self.current@[i as int].0 == cur0[i as int].0,
                    forall|a: int| i < a < n ==> self.current@[a] == cur0[a],
                    forall|a: int| 0 <= a < i ==> self.current@[a].0 == cur0[a].0,
                    forall|a: int| 0 <= a < i ==> self.current@[a].1@.len() == cur0[a].1@.len(),
                    forall|a: int, b: int|
                        0 <= a < i && 0 <= b < self.current@[a].1@.len() ==> self.current@[a].1@[b]
                            == (Record {
                            rank: spec_rank(interval_stats, cur0[a].1@[b].interval),
                            ..cur0[a].1@[b]
                        }),
                    forall|b: int|
                        0 <= b < j ==> self.current@[i as int].1@[b] == (Record {
                            rank: spec_rank(interval_stats, cur0[i as int].1@[b].interval),
                            ..cur0[i as int].1@[b]
                        }),
                    forall|b: int| j <= b < m ==> self.current@[i as int].1@[b] == cur0[i as int].1@[b],
                decreases m - j,
            {
                let iv = self.current[i].1[j].interval;
                let rk = interval_stats.get_rank(iv);
                self.current[i].1[j].rank = rk;
                j += 1;
            }
            i += 1;
        }
        let mut records: Vec<(String, Vec<Record>)> = Vec::new();
        core::mem::swap(&mut self.current, &mut records);
        self.interval_samples.clear();
        self.latency_samples.clear();
        let chunk = ChunkFile { stats, records };
        proof {
            assert(cur0 == old(self).pending());
            assert(chunk_wf(&chunk)) by {
                assert forall|a: int, b: int|
                    0 <= a < b < chunk.records@.len() implies chunk.records@[a].0@
                    != chunk.records@[b].0@ by {
                    assert(cur0[a].0@ != cur0[b].0@);
                    assert(chunk.records@[a].0 == cur0[a].0);
                    assert(chunk.records@[b].0 == cur0[b].0);
                }
                assert(table_keys_unique(chunk.records@));
                assert forall|a: int| 0 <= a < chunk.records@.len() implies chunk.records@[a].1@.len()
                    > 0 by {
                    assert(cur0[a].1@.len() > 0);
                }
                assert forall|a: int, b: int|
                    0 <= a < chunk.records@.len() && 0 <= b < chunk.records@[a].1@.len()
                    implies chunk.records@[a].1@[b].rank <= 100 by {
                    assert(chunk.records@[a].1@[b] == (Record {
                        rank: spec_rank(interval_stats, cur0[a].1@[b].interval),
                        ..cur0[a].1@[b]
                    }));
                }
                assert forall|a: int|
                    0 <= a < chunk.records@.len() implies records_ascending(
                    chunk.records@[a].1@,
                ) by {
                    assert(records_ascending(cur0[a].1@));
                    assert forall|x: int, y: int|
                        0 <= x <= y < chunk.records@[a].1@.len() implies chunk.records@[a].1@[x].end_of_interval
                        <= chunk.records@[a].1@[y].end_of_interval by {
                        assert(chunk.records@[a].1@[x].end_of_interval
                            == cur0[a].1@[x].end_of_interval);
                        assert(chunk.records@[a].1@[y].end_of_interval
                            == cur0[a].1@[y].end_of_interval);
                    }
                }
            }
        }
        chunk
    }
}

/// Looks up the timestamp stored under `name`.
fn find_ts(t: &Vec<(String, u64)>, name: &String) -> (r: Option<u64>)
    requires
        table_keys_unique(t@),
    ensures
        match r {
            Some(ts) => table_has_key(t@, name@) && ts == lookup_ts(t@, name@),
            None => !table_has_key(t@, name@),
        },
{
    let n = t.len();
    let mut i: usize = 0;
    while i < n
        invariant
            0 <= i <= n,
            n == t@.len(),
            table_keys_unique(t@),
            forall|a: int| 0 <= a < i ==> t@[a].0@ != name@,
        decreases n - i,
    {
        if t[i].0 == *name {
            proof {
                lemma_table_index_unique(t@, name@, i as int);
            }
            return Some(t[i].1);
        }
        i += 1;
    }
    None
}

} // verus!
