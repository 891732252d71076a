//! The live, query-serving index: per-entity ordered history, ordered global
//! statistics, and a rank-bucketed anomaly index, with idempotent chunk merge
//! and front-only retention pruning.
use vstd::prelude::*;
use crate::model::ChunkFile;
use crate::model::Record;
use crate::model::SystemStats;
use crate::model::chunk_wf;
use crate::model::lookup_recs;
use crate::model::records_ascending;
use crate::model::table_has_key;
use crate::model::table_index;
use crate::model::table_keys_unique;
use crate::model::table_push_record;
use crate::model::lemma_table_index_unique;

verus! {

/// Anomaly-bucket entries that the records of one entity contribute to the
/// bucket of rank `r`, in record order.
pub open spec fn recs_bucket(name: String, rs: Seq<Record>, r: u8) -> Seq<(u64, String)>
    decreases rs.len(),
{
    if rs.len() == 0 {
        Seq::<(u64, String)>::empty()
    } else {
        let prefix = recs_bucket(name, rs.drop_last(), r);
        if rs.last().rank == r {
            prefix.push((rs.last().end_of_interval, name))
        } else {
            prefix
        }
    }
}

/// Anomaly-bucket entries that a whole chunk contributes to the bucket of
/// rank `r`, in entity order then record order.
pub open spec fn chunk_bucket(entries: Seq<(String, Vec<Record>)>, r: u8) -> Seq<(u64, String)>
    decreases entries.len(),
{
    if entries.len() == 0 {
        Seq::<(u64, String)>::empty()
    } else {
        chunk_bucket(entries.drop_last(), r) + recs_bucket(
            entries.last().0,
            entries.last().1@,
            r,
        )
    }
}

/// Bucket entry timestamps never decrease along the sequence.
pub open spec fn entries_ascending(es: Seq<(u64, String)>) -> bool {
    forall|i: int, j: int| 0 <= i <= j < es.len() ==> es[i].0 <= es[j].0
}

/// Appending a time-ordered batch of bucket entries to a time-ordered bucket
/// keeps the bucket time-ordered, provided the batch does not start before
/// the bucket's tail. Together with the exact bucket clause of `merge_chunk`
/// this is the ordering invariant that front-only pruning relies on.
pub proof fn lemma_bucket_append_ascending(a: Seq<(u64, String)>, b: Seq<(u64, String)>)
    requires
        entries_ascending(a),
        entries_ascending(b),
        a.len() > 0 && b.len() > 0 ==> a.last().0 <= b[0].0,
    ensures
        entries_ascending(a + b),
{
    assert forall|i: int, j: int| 0 <= i <= j < (a + b).len() implies (a + b)[i].0 <= (a + b)[j].0
    by {
        if j < a.len() {
            assert((a + b)[i] == a[i] && (a + b)[j] == a[j]);
        } else if i >= a.len() {
            assert((a + b)[i] == b[i - a.len()] && (a + b)[j] == b[j - a.len()]);
        } else {
            assert((a + b)[i] == a[i] && (a + b)[j] == b[j - a.len()]);
            assert(a[i].0 <= a.last().0);
            assert(b[0].0 <= b[j - a.len()].0);
        }
    }
}

/// Statistics timestamps never decrease along the sequence.
pub open spec fn stats_ascending(ss: Seq<SystemStats>) -> bool {
    forall|i: int, j: int| 0 <= i <= j < ss.len() ==> ss[i].timestamp <= ss[j].timestamp
}

/// Every per-entity history of the table is ascending in time.
pub open spec fn hist_ascending(h: Seq<(String, Vec<Record>)>) -> bool {
    forall|i: int| 0 <= i < h.len() ==> records_ascending(h[i].1@)
}

/// Whether a chunk's records join onto the existing history without breaking
/// the per-entity time ordering: for every entity of the chunk that already
/// has history, the chunk's first record is not older than the stored tail.
pub open spec fn chunk_joins(h: Seq<(String, Vec<Record>)>, c: &ChunkFile) -> bool {
    forall|j: int|
        0 <= j < c.records@.len() && lookup_recs(h, c.records@[j].0@).len() > 0
            ==> lookup_recs(h, c.records@[j].0@).last().end_of_interval
            <= c.records@[j].1@[0].end_of_interval
}

/// Length of the longest prefix of timestamps strictly below the cutoff:
/// exactly the elements that front-pruning removes.
pub open spec fn expired_prefix(ts: Seq<u64>, cutoff: u64) -> int
    decreases ts.len(),
{
    if ts.len() == 0 {
        0
    } else if ts[0] >= cutoff {
        0
    } else {
        1 + expired_prefix(ts.drop_first(), cutoff)
    }
}

/// The timestamps of a statistics sequence.
pub open spec fn stats_ts(ss: Seq<SystemStats>) -> Seq<u64> {
    ss.map_values(|s: SystemStats| s.timestamp)
}

/// The timestamps of a record sequence.
pub open spec fn recs_ts(rs: Seq<Record>) -> Seq<u64> {
    rs.map_values(|r: Record| r.end_of_interval)
}

/// The timestamps of a bucket-entry sequence.
pub open spec fn entries_ts(es: Seq<(u64, String)>) -> Seq<u64> {
    es.map_values(|e: (u64, String)| e.0)
}

/// A record sequence after front-pruning against `cutoff`.
pub open spec fn pruned_recs(rs: Seq<Record>, cutoff: u64) -> Seq<Record> {
    rs.skip(expired_prefix(recs_ts(rs), cutoff))
}

/// `expired_prefix` is the unique boundary: everything before it is expired
/// and the element at it (if any) is fresh.
pub proof fn lemma_expired_prefix(ts: Seq<u64>, cutoff: u64, k: int)
    requires
        0 <= k <= ts.len(),
        forall|m: int| 0 <= m < k ==> ts[m] < cutoff,
        k == ts.len() || ts[k] >= cutoff,
    ensures
        expired_prefix(ts, cutoff) == k,
    decreases ts.len(),
{
    if k == 0 {
    } else {
        assert(ts[0] < cutoff);
        assert forall|m: int| 0 <= m < k - 1 implies ts.drop_first()[m] < cutoff by {
            assert(ts.drop_first()[m] == ts[m + 1]);
        }
        if k < ts.len() {
            assert(ts.drop_first()[k - 1] == ts[k]);
        }
        lemma_expired_prefix(ts.drop_first(), cutoff, k - 1);
    }
}

/// Basic bounds of `expired_prefix`.
pub proof fn lemma_expired_props(ts: Seq<u64>, cutoff: u64)
    ensures
        0 <= expired_prefix(ts, cutoff) <= ts.len(),
        expired_prefix(ts, cutoff) < ts.len() ==> ts[expired_prefix(ts, cutoff)] >= cutoff,
        forall|m: int| 0 <= m < expired_prefix(ts, cutoff) ==> ts[m] < cutoff,
    decreases ts.len(),
{
    if ts.len() == 0 || ts[0] >= cutoff {
    } else {
        lemma_expired_props(ts.drop_first(), cutoff);
        let e = expired_prefix(ts, cutoff);
        let ed = expired_prefix(ts.drop_first(), cutoff);
        assert(e == 1 + ed);
        assert forall|m: int| 0 <= m < e implies ts[m] < cutoff by {
            if m > 0 {
                assert(ts.drop_first()[m - 1] == ts[m]);
            }
        }
        if e < ts.len() {
            assert(ts.drop_first()[ed] == ts[e]);
        }
    }
}

/// Whether one of the first `n` names holds exactly the characters `key`.
pub open spec fn key_in_n(names: Seq<String>, n: int, key: Seq<char>) -> bool {
    exists|x: int| 0 <= x < n && x < names.len() && names[x]@ == key
}

/// Whether some name of the sequence holds exactly the characters `key`.
pub open spec fn key_in(names: Seq<String>, key: Seq<char>) -> bool {
    key_in_n(names, names.len() as int, key)
}

/// One entry of an anomaly query result: an entity, its rank-weighted score,
/// and its full retained history.
pub struct ScoredBus {
    pub bus_id: String,
    pub score: u64,
    pub history: Vec<Record>,
}

/// Whether some result entry carries the entity `key`.
pub open spec fn id_in(scored: Seq<ScoredBus>, key: Seq<char>) -> bool {
    exists|i: int| 0 <= i < scored.len() && scored[i].bus_id@ == key
}

/// Whether the sequence holds the element `e`.
pub open spec fn elem_in(v: Seq<ScoredBus>, e: ScoredBus) -> bool {
    exists|i: int| 0 <= i < v.len() && v[i] == e
}

/// The rank-weighted score of a record sequence: the sum of the intervals of
/// all records whose rank is at least `min_rank`.
pub open spec fn score_of(rs: Seq<Record>, min_rank: u8) -> int
    decreases rs.len(),
{
    if rs.len() == 0 {
        0
    } else {
        score_of(rs.drop_last(), min_rank) + if rs.last().rank >= min_rank {
            rs.last().interval as int
        } else {
            0
        }
    }
}

/// A non-negative total saturated to the 64-bit range.
pub open spec fn sat_u64(x: int) -> u64 {
    if x > u64::MAX {
        u64::MAX
    } else {
        x as u64
    }
}

/// Scores are sums of non-negative terms.
pub proof fn lemma_score_nonneg(rs: Seq<Record>, min_rank: u8)
    ensures
        score_of(rs, min_rank) >= 0,
    decreases rs.len(),
{
    if rs.len() > 0 {
        lemma_score_nonneg(rs.drop_last(), min_rank);
    }
}

/// The in-memory, query-serving structure. The three retained collections
/// and the merge watermark are only reachable through the merge, prune and
/// query operations, which preserve the index invariant.
pub struct LiveIndex {
    history: Vec<(String, Vec<Record>)>,
    stats_history: Vec<SystemStats>,
    anomaly_index: Vec<Vec<(u64, String)>>,
    watermark: u64,
}

impl LiveIndex {
    /// Per-entity history table.
    pub closed spec fn hist(&self) -> Seq<(String, Vec<Record>)> {
        self.history@
    }

    /// Retained window statistics.
    pub closed spec fn stats_seq(&self) -> Seq<SystemStats> {
        self.stats_history@
    }

    /// The anomaly bucket of rank `r`.
    pub closed spec fn bucket(&self, r: int) -> Seq<(u64, String)> {
        self.anomaly_index@[r]@
    }

    /// Timestamp of the most recently merged chunk.
    pub closed spec fn watermark(&self) -> u64 {
        self.watermark
    }

    /// Index invariant: unique entity keys, no empty entity histories, one
    /// bucket per rank 0-100, statistics ascending in time and never newer
    /// than the watermark.
    pub closed spec fn wf(&self) -> bool {
        &&& table_keys_unique(self.history@)
        &&& forall|i: int| 0 <= i < self.history@.len() ==> self.history@[i].1@.len() > 0
        &&& self.anomaly_index@.len() == 101
        &&& stats_ascending(self.stats_history@)
        &&& forall|i: int|
            0 <= i < self.stats_history@.len() ==> self.stats_history@[i].timestamp
                <= self.watermark
    }

    /// The current merge watermark, as a value.
    pub fn current_watermark(&self) -> (w: u64)
        ensures
            w == self.watermark(),
    {
        self.watermark
    }

    /// An empty index with watermark zero.
    pub fn new() -> (r: LiveIndex)
        ensures
            r.wf(),
            r.hist().len() == 0,
            r.stats_seq().len() == 0,
            forall|b: int| 0 <= b <= 100 ==> r.bucket(b).len() == 0,
            r.watermark() == 0,
    {
        let mut anomaly_index: Vec<Vec<(u64, String)>> = Vec::new();
        let mut b: usize = 0;
        while b < 101
            invariant
                0 <= b <= 101,
                anomaly_index@.len() == b,
                forall|r: int| 0 <= r < b ==> anomaly_index@[r]@.len() == 0,
            decreases 101 - b,
        {
            anomaly_index.push(Vec::new());
            b += 1;
        }
        LiveIndex { history: Vec::new(), stats_history: Vec::new(), anomaly_index, watermark: 0 }
    }

    /// Merges one chunk. A chunk whose timestamp is not beyond the watermark
    /// is refused without any effect, so the same chunk never contributes
    /// twice. A merged chunk appends each entity's records to that entity's
    /// history, appends one bucket entry per record under the record's rank,
    /// appends the chunk's statistics, and advances the watermark to the
    /// chunk's timestamp.
    pub fn merge_chunk(&mut self, c: &ChunkFile) -> (merged: bool)
        requires
            old(self).wf(),
            chunk_wf(c),
        ensures
            final(self).wf(),
            merged == (c.stats.timestamp > old(self).watermark()),
            !merged ==> {
                &&& final(self).hist() == old(self).hist()
                &&& final(self).stats_seq() == old(self).stats_seq()
                &&& final(self).watermark() == old(self).watermark()
                &&& forall|r: int| 0 <= r <= 100 ==> final(self).bucket(r) == old(self).bucket(r)
            },
            merged ==> {
                &&& final(self).watermark() == c.stats.timestamp
                &&& final(self).stats_seq() == old(self).stats_seq().push(c.stats)
                &&& forall|j: int|
                    0 <= j < c.records@.len() ==> table_has_key(
                        final(self).hist(),
                        c.records@[j].0@,
                    ) && lookup_recs(final(self).hist(), c.records@[j].0@) == lookup_recs(
                        old(self).hist(),
                        c.records@[j].0@,
                    ) + c.records@[j].1@
                &&& forall|k: Seq<char>|
                    !table_has_key(c.records@, k) ==> (table_has_key(final(self).hist(), k)
                        <==> table_has_key(old(self).hist(), k))
                &&& forall|k: Seq<char>|
                    !table_has_key(c.records@, k) && table_has_key(old(self).hist(), k)
                        ==> lookup_recs(final(self).hist(), k) == lookup_recs(old(self).hist(), k)
                &&& forall|r: int|
                    0 <= r <= 100 ==> final(self).bucket(r) == old(self).bucket(r) + chunk_bucket(
                        c.records@,
                        r as u8,
                    )
                &&& ((hist_ascending(old(self).hist()) && chunk_joins(old(self).hist(), c))
                    ==> hist_ascending(final(self).hist()))
            },
    {
        if c.stats.timestamp <= self.watermark {
            return false;
        }
        let n = c.records.len();
        let mut ci: usize = 0;
        while ci < n
            invariant
                0 <= ci <= n,
                chunk_wf(c),
                n == c.records@.len(),
                c.stats.timestamp > old(self).watermark,
                old(self).wf(),
                self.watermark == old(self).watermark,
                self.stats_history@ == old(self).stats_history@,
                self.anomaly_index@.len() == 101,
                table_keys_unique(self.history@),
                forall|i: int| 0 <= i < self.history@.len() ==> self.history@[i].1@.len() > 0,
                forall|r: int|
                    0 <= r <= 100 ==> self.anomaly_index@[r]@ == old(self).anomaly_index@[r]@
                        + chunk_bucket(c.records@.take(ci as int), r as u8),
                forall|j: int|
                    0 <= j < ci ==> table_has_key(self.history@, c.records@[j].0@) && lookup_recs(
                        self.history@,
                        c.records@[j].0@,
                    ) == lookup_recs(old(self).history@, c.records@[j].0@) + c.records@[j].1@,
                forall|k: Seq<char>|
                    !table_has_key(c.records@.take(ci as int), k) ==> (table_has_key(
                        self.history@,
                        k,
                    ) <==> table_has_key(old(self).history@, k)),
                forall|k: Seq<char>|
                    !table_has_key(c.records@.take(ci as int), k) && table_has_key(
                        old(self).history@,
                        k,
                    ) ==> lookup_recs(self.history@, k) == lookup_recs(old(self).history@, k),
            decreases n - ci,
        {
            let name = &c.records[ci].0;
            let ghost cur_hist = self.history@;
            let ghost key = name@;
            proof {
                assert(!table_has_key(c.records@.take(ci as int), key)) by {
                    if table_has_key(c.records@.take(ci as int), key) {
                        let j = table_index(c.records@.take(ci as int), key);
                        assert(c.records@[j].0@ == key);
                        assert(c.records@[ci as int].0@ == key);
                    }
                }
            }
            let m = c.records[ci].1.len();
            let mut rj: usize = 0;
            while rj < m
                invariant
                    0 <= rj <= m,
                    0 <= ci < n,
                    chunk_wf(c),
                    n == c.records@.len(),
                    m == c.records@[ci as int].1@.len(),
                    name == &c.records@[ci as int].0,
                    key == c.records@[ci as int].0@,
                    old(self).wf(),
                    self.watermark == old(self).watermark,
                    self.stats_history@ == old(self).stats_history@,
                    self.anomaly_index@.len() == 101,
                    table_keys_unique(self.history@),
                    forall|i: int| 0 <= i < self.history@.len() ==> self.history@[i].1@.len() > 0,
                    forall|r: int|
                        0 <= r <= 100 ==> self.anomaly_index@[r]@ == old(self).anomaly_index@[r]@
                            + chunk_bucket(c.records@.take(ci as int), r as u8) + recs_bucket(
                            c.records@[ci as int].0,
                            c.records@[ci as int].1@.take(rj as int),
                            r as u8,
                        ),
                    rj > 0 ==> table_has_key(self.history@, key),
                    lookup_recs(self.history@, key) == lookup_recs(old(self).history@, key)
                        + c.records@[ci as int].1@.take(rj as int),
                    forall|j: int|
                        0 <= j < ci ==> table_has_key(self.history@, c.records@[j].0@)
                            && lookup_recs(self.history@, c.records@[j].0@) == lookup_recs(
                            old(self).history@,
                            c.records@[j].0@,
                        ) + c.records@[j].1@,
                    forall|k: Seq<char>|
                        !table_has_key(c.records@.take(ci as int), k) && k != key ==> (
                        table_has_key(self.history@, k) <==> table_has_key(
                            old(self).history@,
                            k,
                        )),
                    forall|k: Seq<char>|
                        !table_has_key(c.records@.take(ci as int), k) && k != key
                            && table_has_key(old(self).history@, k) ==> lookup_recs(
                            self.history@,
                            k,
                        ) == lookup_recs(old(self).history@, k),
                decreases m - rj,
            {
                let rec = c.records[ci].1[rj];
                let ghost pre_hist = self.history@;
                let ghost pre_buckets = self.anomaly_index@;
                table_push_record(&mut self.history, name, rec);
                let rk = rec.rank as usize;
                self.anomaly_index[rk].push((rec.end_of_interval, name.clone()));
                proof {
                    let recs_full = c.records@[ci as int].1@;
                    assert(recs_full.take(rj + 1).drop_last() =~= recs_full.take(rj as int));
                    assert(recs_full.take(rj + 1).last() == rec);
                    assert(lookup_recs(self.history@, key) =~= lookup_recs(
                        old(self).history@,
                        key,
                    ) + recs_full.take(rj + 1));
                    assert forall|r: int| 0 <= r <= 100 implies self.anomaly_index@[r]@ == old(
                        self,
                    ).anomaly_index@[r]@ + chunk_bucket(c.records@.take(ci as int), r as u8)
                        + recs_bucket(
                        c.records@[ci as int].0,
                        recs_full.take(rj + 1),
                        r as u8,
                    ) by {
                        let base = old(self).anomaly_index@[r]@ + chunk_bucket(
                            c.records@.take(ci as int),
                            r as u8,
                        );
                        let rb_old = recs_bucket(
                            c.records@[ci as int].0,
                            recs_full.take(rj as int),
                            r as u8,
                        );
                        let rb_new = recs_bucket(
                            c.records@[ci as int].0,
                            recs_full.take(rj + 1),
                            r as u8,
                        );
                        if r == rec.rank {
                            assert(rb_new == rb_old.push((rec.end_of_interval, c.records@[ci as int].0)));
                            assert(self.anomaly_index@[r]@ == pre_buckets[r]@.push(
                                (rec.end_of_interval, c.records@[ci as int].0),
                            ));
                            assert(self.anomaly_index@[r]@ =~= base + rb_new);
                        } else {
                            assert(rb_new == rb_old);
                            assert(self.anomaly_index@[r]@ == pre_buckets[r]@);
                            assert(self.anomaly_index@[r]@ =~= base + rb_new);
                        }
                    }
                }
                rj += 1;
            }
            proof {
                let recs_full = c.records@[ci as int].1@;
                assert(recs_full.take(m as int) =~= recs_full);
                assert(c.records@.take(ci + 1).drop_last() =~= c.records@.take(ci as int));
                assert(c.records@.take(ci + 1).last() == c.records@[ci as int]);
                assert forall|r: int| 0 <= r <= 100 implies self.anomaly_index@[r]@ == old(
                    self,
                ).anomaly_index@[r]@ + chunk_bucket(c.records@.take(ci + 1), r as u8) by {
                    assert(chunk_bucket(c.records@.take(ci + 1), r as u8) == chunk_bucket(
                        c.records@.take(ci as int),
                        r as u8,
                    ) + recs_bucket(c.records@[ci as int].0, recs_full, r as u8));
                    assert(self.anomaly_index@[r]@ =~= old(self).anomaly_index@[r]@ + chunk_bucket(
                        c.records@.take(ci + 1),
                        r as u8,
                    ));
                }
                assert forall|k: Seq<char>|
                    !table_has_key(c.records@.take(ci + 1), k) implies !table_has_key(
                    c.records@.take(ci as int),
                    k,
                ) && k != key by {
                    if table_has_key(c.records@.take(ci as int), k) {
                        let j = table_index(c.records@.take(ci as int), k);
                        assert(c.records@.take(ci + 1)[j].0@ == k);
                    }
                    assert(c.records@.take(ci + 1)[ci as int].0@ == key);
                }
                assert(m > 0);
                assert(recs_full.len() > 0);
            }
            ci += 1;
        }
        proof {
            assert(c.records@.take(n as int) =~= c.records@);
        }
        self.stats_history.push(c.stats);
        self.watermark = c.stats.timestamp;
        proof {
            assert forall|j: int|
                0 <= j < c.records@.len() implies table_has_key(
                self.history@,
                c.records@[j].0@,
            ) && lookup_recs(self.history@, c.records@[j].0@) == lookup_recs(
                old(self).history@,
                c.records@[j].0@,
            ) + c.records@[j].1@ by {}
            assert((hist_ascending(old(self).history@) && chunk_joins(old(self).history@, c))
                ==> hist_ascending(self.history@)) by {
                if hist_ascending(old(self).history@) && chunk_joins(old(self).history@, c) {
                    assert forall|i: int|
                        0 <= i < self.history@.len() implies records_ascending(
                        self.history@[i].1@,
                    ) by {
                        let k = self.history@[i].0@;
                        lemma_table_index_unique(self.history@, k, i);
                        assert(lookup_recs(self.history@, k) == self.history@[i].1@);
                        if table_has_key(c.records@, k) {
                            let j = table_index(c.records@, k);
                            assert(c.records@[j].0@ == k);
                            assert(self.history@[i].1@ == lookup_recs(old(self).history@, k)
                                + c.records@[j].1@);
                            assert(records_ascending(c.records@[j].1@));
                            if table_has_key(old(self).history@, k) {
                                let oi = table_index(old(self).history@, k);
                                assert(records_ascending(old(self).history@[oi].1@));
                            }
                        } else {
                            assert(table_has_key(old(self).history@, k));
                            assert(self.history@[i].1@ == lookup_recs(old(self).history@, k));
                            let oi = table_index(old(self).history@, k);
                            assert(records_ascending(old(self).history@[oi].1@));
                        }
                    }
                }
            }
        }
        true
    }

    /// Front-prunes all three structures against the retention cutoff:
    /// repeatedly removes the oldest element of each sequence while its
    /// timestamp is below `cutoff`, then drops entities whose history became
    /// empty. On time-ordered structures (the index invariant of the merge
    /// discipline) this retains exactly the elements at or after the cutoff.
    pub fn prune(&mut self, cutoff: u64)
        requires
            old(self).wf(),
        ensures
            final(self).wf(),
            final(self).watermark() == old(self).watermark(),
            final(self).stats_seq() == old(self).stats_seq().skip(
                expired_prefix(stats_ts(old(self).stats_seq()), cutoff),
            ),
            forall|i: int|
                0 <= i < final(self).stats_seq().len() ==> final(self).stats_seq()[i].timestamp
                    >= cutoff,
            forall|r: int|
                0 <= r <= 100 ==> final(self).bucket(r) == old(self).bucket(r).skip(
                    expired_prefix(entries_ts(old(self).bucket(r)), cutoff),
                ),
            forall|r: int, i: int|
                0 <= r <= 100 && entries_ascending(old(self).bucket(r))
                    && 0 <= i < final(self).bucket(r).len()
                    ==> final(self).bucket(r)[i].0 >= cutoff,
            forall|k: Seq<char>|
                table_has_key(final(self).hist(), k) <==> (table_has_key(old(self).hist(), k)
                    && pruned_recs(lookup_recs(old(self).hist(), k), cutoff).len() > 0),
            forall|k: Seq<char>|
                table_has_key(final(self).hist(), k) ==> lookup_recs(final(self).hist(), k)
                    == pruned_recs(lookup_recs(old(self).hist(), k), cutoff),
            forall|i: int| 0 <= i < final(self).hist().len() ==> final(self).hist()[i].1@.len() > 0,
            hist_ascending(old(self).hist()) ==> (forall|i: int, j: int|
                0 <= i < final(self).hist().len() && 0 <= j < final(self).hist()[i].1@.len()
                    ==> final(self).hist()[i].1@[j].end_of_interval >= cutoff),
            hist_ascending(old(self).hist()) ==> hist_ascending(final(self).hist()),
    {
        let ghost stats0 = self.stats_history@;
        let ghost mut k: int = 0;
        while self.stats_history.len() > 0 && self.stats_history[0].timestamp < cutoff
            invariant
                0 <= k <= stats0.len(),
                self.stats_history@ == stats0.skip(k),
                forall|m: int| 0 <= m < k ==> stats0[m].timestamp < cutoff,
                self.history@ == old(self).history@,
                self.anomaly_index@ == old(self).anomaly_index@,
                self.watermark == old(self).watermark,
            decreases self.stats_history@.len(),
        {
            self.stats_history.remove(0);
            proof {
                k = k + 1;
                assert(self.stats_history@ =~= stats0.skip(k));
            }
        }
        proof {
            assert forall|m: int| 0 <= m < k implies stats_ts(stats0)[m] < cutoff by {}
            if k < stats0.len() {
                assert(stats0.skip(k)[0] == stats0[k]);
            }
            lemma_expired_prefix(stats_ts(stats0), cutoff, k);
        }
        let ghost stats1 = self.stats_history@;
        let ghost buckets0 = self.anomaly_index@;
        let mut r: usize = 0;
        while r < 101
            invariant
                0 <= r <= 101,
                self.anomaly_index@.len() == 101,
                buckets0.len() == 101,
                forall|b: int|
                    0 <= b < r ==> self.anomaly_index@[b]@ == buckets0[b]@.skip(
                        expired_prefix(entries_ts(buckets0[b]@), cutoff),
                    ),
                forall|b: int| r <= b < 101 ==> self.anomaly_index@[b] == buckets0[b],
                self.stats_history@ == stats1,
                self.history@ == old(self).history@,
                self.watermark == old(self).watermark,
            decreases 101 - r,
        {
            let ghost es0 = self.anomaly_index@[r as int]@;
            let ghost pre_outer = self.anomaly_index@;
            let ghost mut e: int = 0;
            while self.anomaly_index[r].len() > 0 && self.anomaly_index[r][0].0 < cutoff
                invariant
                    0 <= r < 101,
                    self.anomaly_index@.len() == 101,
                    0 <= e <= es0.len(),
                    self.anomaly_index@[r as int]@ == es0.skip(e),
                    forall|m: int| 0 <= m < e ==> es0[m].0 < cutoff,
                    pre_outer.len() == 101,
                    buckets0.len() == 101,
                    es0 == pre_outer[r as int]@,
                    es0 == buckets0[r as int]@,
                    forall|b: int| 0 <= b < 101 && b != r ==> self.anomaly_index@[b] == pre_outer[b],
                    forall|b: int|
                        0 <= b < r ==> self.anomaly_index@[b]@ == buckets0[b]@.skip(
                            expired_prefix(entries_ts(buckets0[b]@), cutoff),
                        ),
                    forall|b: int| r < b < 101 ==> self.anomaly_index@[b] == buckets0[b],
                    self.stats_history@ == stats1,
                    self.history@ == old(self).history@,
                    self.watermark == old(self).watermark,
                decreases self.anomaly_index@[r as int]@.len(),
            {
                self.anomaly_index[r].remove(0);
                proof {
                    e = e + 1;
                    assert(self.anomaly_index@[r as int]@ =~= es0.skip(e));
                }
            }
            proof {
                assert forall|m: int| 0 <= m < e implies entries_ts(es0)[m] < cutoff by {}
                if e < es0.len() {
                    assert(es0.skip(e)[0] == es0[e]);
                }
                lemma_expired_prefix(entries_ts(es0), cutoff, e);
                assert(es0 == buckets0[r as int]@);
                assert(self.anomaly_index@[r as int]@ == buckets0[r as int]@.skip(
                    expired_prefix(entries_ts(buckets0[r as int]@), cutoff),
                ));
            }
            r += 1;
        }
        let ghost buckets1 = self.anomaly_index@;
        let mut old_h: Vec<(String, Vec<Record>)> = Vec::new();
        core::mem::swap(&mut self.history, &mut old_h);
        let ghost orig = old_h@;
        let ghost mut p: int = 0;
        while old_h.len() > 0
            invariant
                0 <= p <= orig.len(),
                old_h@ == orig.skip(p),
                table_keys_unique(orig),
                forall|q: int| 0 <= q < orig.len() ==> orig[q].1@.len() > 0,
                table_keys_unique(self.history@),
                forall|a: int| 0 <= a < self.history@.len() ==> self.history@[a].1@.len() > 0,
                forall|kk: Seq<char>|
                    table_has_key(self.history@, kk) ==> table_has_key(orig.take(p), kk),
                forall|q: int|
                    0 <= q < p ==> (pruned_recs(orig[q].1@, cutoff).len() > 0 ==> (table_has_key(
                        self.history@,
                        orig[q].0@,
                    ) && lookup_recs(self.history@, orig[q].0@) == pruned_recs(
                        orig[q].1@,
                        cutoff,
                    ))),
                forall|q: int|
                    0 <= q < p ==> (pruned_recs(orig[q].1@, cutoff).len() == 0 ==> !table_has_key(
                        self.history@,
                        orig[q].0@,
                    )),
                self.stats_history@ == stats1,
                self.anomaly_index@ == buckets1,
                self.watermark == old(self).watermark,
            decreases old_h@.len(),
        {
            let ghost q = p;
            let (name, mut recs) = old_h.remove(0);
            proof {
                assert(old_h@ =~= orig.skip(q + 1));
                assert((name, recs) == orig[q]);
            }
            let ghost rs0 = recs@;
            let ghost mut e: int = 0;
            while recs.len() > 0 && recs[0].end_of_interval < cutoff
                invariant
                    0 <= e <= rs0.len(),
                    recs@ == rs0.skip(e),
                    forall|m: int| 0 <= m < e ==> rs0[m].end_of_interval < cutoff,
                decreases recs@.len(),
            {
                recs.remove(0);
                proof {
                    e = e + 1;
                    assert(recs@ =~= rs0.skip(e));
                }
            }
            proof {
                assert forall|m: int| 0 <= m < e implies recs_ts(rs0)[m] < cutoff by {}
                if e < rs0.len() {
                    assert(rs0.skip(e)[0] == rs0[e]);
                }
                lemma_expired_prefix(recs_ts(rs0), cutoff, e);
                assert(recs@ == pruned_recs(orig[q].1@, cutoff));
                assert(orig.take(q + 1).drop_last() =~= orig.take(q));
                assert(!table_has_key(orig.take(q), orig[q].0@)) by {
                    if table_has_key(orig.take(q), orig[q].0@) {
                        let w = table_index(orig.take(q), orig[q].0@);
                        assert(orig[w].0@ == orig[q].0@);
                    }
                }
                assert(!table_has_key(self.history@, orig[q].0@));
            }
            if recs.len() > 0 {
                let ghost pre = self.history@;
                self.history.push((name, recs));
                proof {
                    assert(self.history@[pre.len() as int].0@ == orig[q].0@);
                    lemma_table_index_unique(self.history@, orig[q].0@, pre.len() as int);
                    assert(lookup_recs(self.history@, orig[q].0@) == pruned_recs(
                        orig[q].1@,
                        cutoff,
                    ));
                    assert forall|kk: Seq<char>|
                        kk != orig[q].0@ && table_has_key(pre, kk) implies lookup_recs(
                        self.history@,
                        kk,
                    ) == lookup_recs(pre, kk) by {
                        let a = table_index(pre, kk);
                        lemma_table_index_unique(self.history@, kk, a);
                    }
                    assert forall|kk: Seq<char>|
                        table_has_key(self.history@, kk) implies table_has_key(
                        orig.take(q + 1),
                        kk,
                    ) by {
                        let a = table_index(self.history@, kk);
                        if a < pre.len() {
                            assert(pre[a].0@ == kk);
                            assert(table_has_key(pre, kk));
                            let w = table_index(orig.take(q as int), kk);
                            assert(orig.take(q + 1)[w].0@ == kk);
                        } else {
                            assert(orig.take(q + 1)[q].0@ == kk);
                        }
                    }
                }
            } else {
                proof {
                    assert forall|kk: Seq<char>|
                        table_has_key(self.history@, kk) implies table_has_key(
                        orig.take(q + 1),
                        kk,
                    ) by {
                        let w = table_index(orig.take(q as int), kk);
                        assert(orig.take(q + 1)[w].0@ == kk);
                    }
                }
            }
            proof {
                p = q + 1;
            }
        }
        proof {
            assert(p == orig.len());
            assert(orig.take(p) =~= orig);
            assert forall|kk: Seq<char>|
                table_has_key(self.history@, kk) implies (table_has_key(orig, kk) && pruned_recs(
                lookup_recs(orig, kk),
                cutoff,
            ).len() > 0 && lookup_recs(self.history@, kk) == pruned_recs(
                lookup_recs(orig, kk),
                cutoff,
            )) by {
                let q = table_index(orig, kk);
                assert(orig[q].0@ == kk);
                assert(lookup_recs(orig, kk) == orig[q].1@);
                if pruned_recs(orig[q].1@, cutoff).len() == 0 {
                    assert(!table_has_key(self.history@, orig[q].0@));
                }
            }
            assert forall|kk: Seq<char>|
                table_has_key(orig, kk) && pruned_recs(lookup_recs(orig, kk), cutoff).len() > 0
                implies table_has_key(self.history@, kk) by {
                let q = table_index(orig, kk);
                assert(orig[q].0@ == kk);
                assert(lookup_recs(orig, kk) == orig[q].1@);
            }
            assert(hist_ascending(orig) ==> (forall|i: int, j: int|
                0 <= i < self.history@.len() && 0 <= j < self.history@[i].1@.len()
                    ==> self.history@[i].1@[j].end_of_interval >= cutoff)) by {
                if hist_ascending(orig) {
                    assert forall|i: int, j: int|
                        0 <= i < self.history@.len() && 0 <= j < self.history@[i].1@.len()
                        implies self.history@[i].1@[j].end_of_interval >= cutoff by {
                        let kk = self.history@[i].0@;
                        lemma_table_index_unique(self.history@, kk, i);
                        let q = table_index(orig, kk);
                        assert(orig[q].0@ == kk);
                        assert(records_ascending(orig[q].1@));
                        let rs = orig[q].1@;
                        let e = expired_prefix(recs_ts(rs), cutoff);
                        lemma_expired_props(recs_ts(rs), cutoff);
                        assert(self.history@[i].1@ == rs.skip(e));
                        assert(self.history@[i].1@[j] == rs[e + j]);
                        assert(recs_ts(rs)[e] == rs[e].end_of_interval);
                        assert(rs[e].end_of_interval <= rs[e + j].end_of_interval);
                    }
                }
            }
            assert(hist_ascending(orig) ==> hist_ascending(self.history@)) by {
                if hist_ascending(orig) {
                    assert forall|i: int|
                        0 <= i < self.history@.len() implies records_ascending(
                        self.history@[i].1@,
                    ) by {
                        let kk = self.history@[i].0@;
                        lemma_table_index_unique(self.history@, kk, i);
                        let q = table_index(orig, kk);
                        assert(orig[q].0@ == kk);
                        assert(records_ascending(orig[q].1@));
                        let rs = orig[q].1@;
                        let e = expired_prefix(recs_ts(rs), cutoff);
                        lemma_expired_props(recs_ts(rs), cutoff);
                        assert(self.history@[i].1@ == rs.skip(e));
                        assert forall|x: int, y: int|
                            0 <= x <= y < self.history@[i].1@.len()
                            implies self.history@[i].1@[x].end_of_interval
                            <= self.history@[i].1@[y].end_of_interval by {
                            assert(self.history@[i].1@[x] == rs[e + x]);
                            assert(self.history@[i].1@[y] == rs[e + y]);
                        }
                    }
                }
            }
            assert forall|i: int|
                0 <= i < self.stats_history@.len() implies self.stats_history@[i].timestamp
                >= cutoff by {
                let ks = expired_prefix(stats_ts(stats0), cutoff);
                lemma_expired_props(stats_ts(stats0), cutoff);
                assert(self.stats_history@[i] == stats0[ks + i]);
                assert(stats_ts(stats0)[ks] == stats0[ks].timestamp);
                assert(stats0[ks].timestamp <= stats0[ks + i].timestamp);
            }
            assert forall|rr: int, i: int|
                0 <= rr <= 100 && entries_ascending(old(self).anomaly_index@[rr]@) && 0 <= i
                    < self.anomaly_index@[rr]@.len() implies self.anomaly_index@[rr]@[i].0
                >= cutoff by {
                let es = old(self).anomaly_index@[rr]@;
                let ke = expired_prefix(entries_ts(es), cutoff);
                lemma_expired_props(entries_ts(es), cutoff);
                assert(self.anomaly_index@[rr]@[i] == es[ke + i]);
                assert(entries_ts(es)[ke] == es[ke].0);
                assert(es[ke].0 <= es[ke + i].0);
            }
            assert(stats_ascending(self.stats_history@)) by {
                assert forall|x: int, y: int|
                    0 <= x <= y < self.stats_history@.len()
                    implies self.stats_history@[x].timestamp <= self.stats_history@[y].timestamp
                by {
                    let ks = expired_prefix(stats_ts(stats0), cutoff);
                    assert(self.stats_history@[x] == stats0[ks + x]);
                    assert(self.stats_history@[y] == stats0[ks + y]);
                }
            }
        }
    }

    /// Whether `key` occurs in some anomaly bucket of rank at least
    /// `min_rank`.
    pub open spec fn is_candidate(&self, key: Seq<char>, min_rank: u8) -> bool {
        exists|rr: int, ii: int|
            min_rank <= rr <= 100 && 0 <= ii < self.bucket(rr).len() && self.bucket(rr)[ii].1@
                == key
    }

    /// The retained history of one entity, oldest first; empty for an
    /// unknown entity.
    pub fn get_history(&self, bus_id: &String) -> (r: Vec<Record>)
        requires
            self.wf(),
        ensures
            r@ == lookup_recs(self.hist(), bus_id@),
    {
        let found = self.find_entry(bus_id);
        match found {
            Some(i) => copy_records(&self.history[i].1),
            None => Vec::new(),
        }
    }

    /// All retained window statistics, oldest first.
    pub fn get_stats(&self) -> (r: Vec<SystemStats>)
        ensures
            r@ == self.stats_seq(),
    {
        let n = self.stats_history.len();
        let mut out: Vec<SystemStats> = Vec::new();
        let mut i: usize = 0;
        while i < n
            invariant
                0 <= i <= n,
                n == self.stats_history@.len(),
                out@ == self.stats_history@.take(i as int),
            decreases n - i,
        {
            out.push(self.stats_history[i]);
            proof {
                assert(out@ =~= self.stats_history@.take(i + 1));
            }
            i += 1;
        }
        proof {
            assert(self.stats_history@.take(n as int) =~= self.stats_history@);
        }
        out
    }

    /// Position of `bus_id` in the history table, if present.
    fn find_entry(&self, bus_id: &String) -> (r: Option<usize>)
        requires
            self.wf(),
        ensures
            match r {
                Some(i) => i < self.hist().len() && self.hist()[i as int].0@ == bus_id@
                    && lookup_recs(self.hist(), bus_id@) == self.hist()[i as int].1@,
                None => !table_has_key(self.hist(), bus_id@),
            },
    {
        let n = self.history.len();
        let mut i: usize = 0;
        while i < n
            invariant
                0 <= i <= n,
                n == self.history@.len(),
                table_keys_unique(self.history@),
                forall|a: int| 0 <= a < i ==> self.history@[a].0@ != bus_id@,
            decreases n - i,
        {
            if self.history[i].0 == *bus_id {
                proof {
                    lemma_table_index_unique(self.history@, bus_id@, i as int);
                }
                return Some(i);
            }
            i += 1;
        }
        None
    }

    /// Entities appearing in some anomaly bucket of rank at least
    /// `min_rank`, without duplicates, and covering every bucket entry.
    #[verifier::rlimit(100)]
    fn collect_candidates(&self, min_rank: u8) -> (cands: Vec<String>)
        requires
            self.wf(),
        ensures
            forall|x: int, y: int| 0 <= x < y < cands@.len() ==> cands@[x]@ != cands@[y]@,
            forall|x: int|
                0 <= x < cands@.len() ==> self.is_candidate(#[trigger] cands@[x]@, min_rank),
            forall|rr: int, ii: int|
                #![trigger self.bucket(rr)[ii]]
                min_rank <= rr <= 100 && 0 <= ii < self.bucket(rr).len() ==> key_in(
                    cands@,
                    self.bucket(rr)[ii].1@,
                ),
    {
        let mut cands: Vec<String> = Vec::new();
        let mut rb: usize = if min_rank > 100 {
            101
        } else {
            min_rank as usize
        };
        while rb < 101
            invariant
                rb <= 101,
                min_rank > 100 ==> rb == 101,
                min_rank > 100 || min_rank as int <= rb,
                self.wf(),
                self.anomaly_index@.len() == 101,
                forall|x: int, y: int| 0 <= x < y < cands@.len() ==> cands@[x]@ != cands@[y]@,
                forall|x: int|
                    0 <= x < cands@.len() ==> self.is_candidate(#[trigger] cands@[x]@, min_rank),
                forall|rr: int, ii: int|
                    #![trigger self.bucket(rr)[ii]]
                    min_rank <= rr < rb && 0 <= ii < self.bucket(rr).len() ==> key_in(
                        cands@,
                        self.bucket(rr)[ii].1@,
                    ),
            decreases 101 - rb,
        {
            let m = self.anomaly_index[rb].len();
            let mut ii: usize = 0;
            while ii < m
                invariant
                    0 <= ii <= m,
                    min_rank as int <= rb && rb < 101,
                    self.wf(),
                    self.anomaly_index@.len() == 101,
                    m == self.bucket(rb as int).len(),
                    forall|x: int, y: int| 0 <= x < y < cands@.len() ==> cands@[x]@ != cands@[y]@,
                    forall|x: int|
                        0 <= x < cands@.len() ==> self.is_candidate(#[trigger] cands@[x]@, min_rank),
                    forall|rr: int, jj: int|
                        #![trigger self.bucket(rr)[jj]]
                        min_rank <= rr < rb && 0 <= jj < self.bucket(rr).len() ==> key_in(
                            cands@,
                            self.bucket(rr)[jj].1@,
                        ),
                    forall|jj: int|
                        #![trigger self.bucket(rb as int)[jj]]
                        0 <= jj < ii ==> key_in(cands@, self.bucket(rb as int)[jj].1@),
                decreases m - ii,
            {
                let ghost pre = cands@;
                let name = &self.anomaly_index[rb][ii].1;
                if !vec_contains_key(&cands, name) {
                    cands.push(name.clone());
                    proof {
                        assert(cands@[pre.len() as int]@ == self.bucket(rb as int)[ii as int].1@);
                        assert(self.is_candidate(cands@[pre.len() as int]@, min_rank)) by {
                            assert((min_rank as int) <= (rb as int) && (rb as int) <= 100 && 0 <= (
                            ii as int) && (ii as int) < self.bucket(rb as int).len() && self.bucket(
                                rb as int,
                            )[ii as int].1@ == cands@[pre.len() as int]@);
                        }
                    }
                }
                proof {
                    assert(cands@.len() >= pre.len());
                    assert(forall|x: int| 0 <= x < pre.len() ==> cands@[x] == pre[x]);
                    assert forall|k: Seq<char>| key_in(pre, k) implies key_in(cands@, k) by {
                        let x = choose|x: int| 0 <= x < pre.len() && pre[x]@ == k;
                        assert(cands@[x]@ == k);
                    }
                    assert(key_in(cands@, self.bucket(rb as int)[ii as int].1@)) by {
                        let key = self.bucket(rb as int)[ii as int].1@;
                        if key_in(pre, key) {
                            let x = choose|x: int| 0 <= x < pre.len() && pre[x]@ == key;
                            assert(cands@[x]@ == key);
                        } else {
                            assert(cands@[pre.len() as int]@ == key);
                        }
                    }
                }
                ii += 1;
            }
            rb += 1;
        }
        cands
    }

    /// Scores the given distinct candidates: entities with retained history
    /// and a positive rank-weighted score become one result entry each.
    #[verifier::rlimit(100)]
    fn score_candidates(&self, cands: &Vec<String>, min_rank: u8) -> (scored: Vec<ScoredBus>)
        requires
            self.wf(),
            forall|x: int, y: int| 0 <= x < y < cands@.len() ==> cands@[x]@ != cands@[y]@,
            forall|x: int|
                0 <= x < cands@.len() ==> self.is_candidate(#[trigger] cands@[x]@, min_rank),
        ensures
            forall|i: int|
                0 <= i < scored@.len() ==> table_has_key(
                    self.hist(),
                    #[trigger] scored@[i].bus_id@,
                ) && scored@[i].history@ == lookup_recs(self.hist(), scored@[i].bus_id@)
                    && scored@[i].score == sat_u64(
                    score_of(lookup_recs(self.hist(), scored@[i].bus_id@), min_rank),
                ) && scored@[i].score > 0 && self.is_candidate(scored@[i].bus_id@, min_rank),
            forall|i: int, j: int|
                0 <= i < j < scored@.len() ==> scored@[i].bus_id@ != scored@[j].bus_id@,
            forall|x: int|
                0 <= x < cands@.len() && table_has_key(self.hist(), #[trigger] cands@[x]@)
                    && sat_u64(score_of(lookup_recs(self.hist(), cands@[x]@), min_rank)) > 0
                    ==> id_in(scored@, cands@[x]@),
    {
        let mut scored: Vec<ScoredBus> = Vec::new();
        let nc = cands.len();
        let mut ci: usize = 0;
        while ci < nc
            invariant
                0 <= ci <= nc,
                self.wf(),
                nc == cands@.len(),
                forall|x: int, y: int| 0 <= x < y < cands@.len() ==> cands@[x]@ != cands@[y]@,
                forall|x: int|
                    0 <= x < cands@.len() ==> self.is_candidate(#[trigger] cands@[x]@, min_rank),
                forall|i: int|
                    0 <= i < scored@.len() ==> table_has_key(
                        self.hist(),
                        #[trigger] scored@[i].bus_id@,
                    ) && scored@[i].history@ == lookup_recs(self.hist(), scored@[i].bus_id@)
                        && scored@[i].score == sat_u64(
                        score_of(lookup_recs(self.hist(), scored@[i].bus_id@), min_rank),
                    ) && scored@[i].score > 0 && self.is_candidate(scored@[i].bus_id@, min_rank),
                forall|i: int|
                    0 <= i < scored@.len() ==> key_in_n(
                        cands@,
                        ci as int,
                        #[trigger] scored@[i].bus_id@,
                    ),
                forall|i: int, j: int|
                    0 <= i < j < scored@.len() ==> scored@[i].bus_id@ != scored@[j].bus_id@,
                forall|x: int|
                    0 <= x < ci && table_has_key(self.hist(), #[trigger] cands@[x]@) && sat_u64(
                        score_of(lookup_recs(self.hist(), cands@[x]@), min_rank),
                    ) > 0 ==> id_in(scored@, cands@[x]@),
            decreases nc - ci,
        {
            let name = &cands[ci];
            let ghost pre = scored@;
            let found = self.find_entry(name);
            match found {
                Some(hi) => {
                    let acc = self.score_entity(hi, min_rank);
                    if acc > 0 {
                        let entry = ScoredBus {
                            bus_id: name.clone(),
                            score: acc,
                            history: copy_records(&self.history[hi].1),
                        };
                        scored.push(entry);
                        proof {
                            assert(scored@[pre.len() as int].bus_id@ == cands@[ci as int]@);
                            assert forall|i: int, jj: int|
                                0 <= i < jj < scored@.len() implies scored@[i].bus_id@
                                != scored@[jj].bus_id@ by {
                                if jj == pre.len() {
                                    let x = choose|x: int|
                                        0 <= x < ci && x < cands@.len() && cands@[x]@
                                            == pre[i].bus_id@;
                                    assert(cands@[x]@ != cands@[ci as int]@);
                                }
                            }
                            assert forall|i: int|
                                0 <= i < scored@.len() implies key_in_n(
                                cands@,
                                ci + 1,
                                #[trigger] scored@[i].bus_id@,
                            ) by {
                                if i < pre.len() {
                                    let x = choose|x: int|
                                        0 <= x < ci && x < cands@.len() && cands@[x]@
                                            == pre[i].bus_id@;
                                    assert(cands@[x]@ == scored@[i].bus_id@);
                                } else {
                                    assert(cands@[ci as int]@ == scored@[i].bus_id@);
                                }
                            }
                            assert forall|k: Seq<char>| id_in(pre, k) implies id_in(scored@, k) by {
                                let i = choose|i: int| 0 <= i < pre.len() && pre[i].bus_id@ == k;
                                assert(scored@[i].bus_id@ == k);
                            }
                            assert(id_in(scored@, cands@[ci as int]@)) by {
                                assert(scored@[pre.len() as int].bus_id@ == cands@[ci as int]@);
                            }
                        }
                    } else {
                        proof {
                            assert(lookup_recs(self.hist(), cands@[ci as int]@) == self.hist()[hi as int].1@);
                            assert(sat_u64(
                                score_of(lookup_recs(self.hist(), cands@[ci as int]@), min_rank),
                            ) == 0);
                        }
                    }
                },
                None => {
                    proof {
                        assert(!table_has_key(self.hist(), cands@[ci as int]@));
                    }
                },
            }
            ci += 1;
        }
        scored
    }

    /// The saturated rank-weighted score of the history entry at `hi`.
    fn score_entity(&self, hi: usize, min_rank: u8) -> (acc: u64)
        requires
            self.wf(),
            hi < self.hist().len(),
        ensures
            acc == sat_u64(score_of(self.hist()[hi as int].1@, min_rank)),
    {
        let recs = &self.history[hi].1;
        let m = recs.len();
        let ghost rs = recs@;
        let mut acc: u64 = 0;
        let mut j: usize = 0;
        while j < m
            invariant
                0 <= j <= m,
                m == rs.len(),
                recs@ == rs,
                acc == sat_u64(score_of(rs.take(j as int), min_rank)),
            decreases m - j,
        {
            proof {
                lemma_score_nonneg(rs.take(j as int), min_rank);
                assert(rs.take(j + 1).drop_last() =~= rs.take(j as int));
                assert(rs.take(j + 1).last() == rs[j as int]);
            }
            let rec = recs[j];
            if rec.rank >= min_rank {
                let term = rec.interval as u64;
                if acc > u64::MAX - term {
                    acc = u64::MAX;
                } else {
                    acc = acc + term;
                }
            }
            j += 1;
        }
        proof {
            assert(rs.take(m as int) =~= rs);
        }
        acc
    }

    /// Entities appearing in an anomaly bucket of rank at least `min_rank`,
    /// scored by the summed interval seconds of their history records of rank
    /// at least `min_rank` (saturated at the 64-bit range); entities with a
    /// zero score are dropped; the rest are sorted by score descending and
    /// capped at the 50 highest.
    #[verifier::rlimit(100)]
    pub fn get_anomalies(&self, min_rank: u8) -> (r: Vec<ScoredBus>)
        requires
            self.wf(),
        ensures
            r@.len() <= 50,
            forall|i: int|
                0 <= i < r@.len() ==> table_has_key(self.hist(), #[trigger] r@[i].bus_id@)
                    && r@[i].history@ == lookup_recs(self.hist(), r@[i].bus_id@) && r@[i].score
                    == sat_u64(score_of(lookup_recs(self.hist(), r@[i].bus_id@), min_rank))
                    && r@[i].score > 0 && self.is_candidate(r@[i].bus_id@, min_rank),
            forall|i: int, j: int| 0 <= i < j < r@.len() ==> r@[i].bus_id@ != r@[j].bus_id@,
            forall|i: int, j: int| 0 <= i <= j < r@.len() ==> r@[i].score >= r@[j].score,
            forall|k: Seq<char>|
                (self.is_candidate(k, min_rank) && table_has_key(self.hist(), k) && sat_u64(
                    score_of(lookup_recs(self.hist(), k), min_rank),
                ) > 0) ==> (id_in(r@, k) || (r@.len() == 50 && forall|i: int|
                    0 <= i < r@.len() ==> #[trigger] r@[i].score >= sat_u64(
                        score_of(lookup_recs(self.hist(), k), min_rank),
                    ))),
    {
        let cands = self.collect_candidates(min_rank);
        let mut scored = self.score_candidates(&cands, min_rank);
        let ghost full = scored@;
        sort_scored(&mut scored);
        proof {
            assert forall|i: int|
                0 <= i < scored@.len() implies table_has_key(
                self.hist(),
                #[trigger] scored@[i].bus_id@,
            ) && scored@[i].history@ == lookup_recs(self.hist(), scored@[i].bus_id@)
                && scored@[i].score == sat_u64(
                score_of(lookup_recs(self.hist(), scored@[i].bus_id@), min_rank),
            ) && scored@[i].score > 0 && self.is_candidate(scored@[i].bus_id@, min_rank) by {
                assert(elem_in(full, scored@[i]));
                let j = choose|j: int| 0 <= j < full.len() && full[j] == scored@[i];
                assert(full[j].bus_id@ == scored@[i].bus_id@);
            }
        }
        let ghost sorted_full = scored@;
        scored.truncate(50);
        proof {
            if sorted_full.len() <= 50 {
                assert(scored@ =~= sorted_full);
            } else {
                assert(scored@ == sorted_full.subrange(0, 50));
            }
            assert forall|k: Seq<char>|
                (self.is_candidate(k, min_rank) && table_has_key(self.hist(), k) && sat_u64(
                    score_of(lookup_recs(self.hist(), k), min_rank),
                ) > 0) implies (id_in(scored@, k) || (scored@.len() == 50 && forall|i: int|
                0 <= i < scored@.len() ==> #[trigger] scored@[i].score >= sat_u64(
                    score_of(lookup_recs(self.hist(), k), min_rank),
                ))) by {
                let sc = sat_u64(score_of(lookup_recs(self.hist(), k), min_rank));
                let (rr, ii) = choose|rr: int, ii: int|
                    min_rank <= rr <= 100 && 0 <= ii < self.bucket(rr).len() && self.bucket(
                        rr,
                    )[ii].1@ == k;
                assert(key_in(cands@, self.bucket(rr)[ii].1@));
                let x = choose|x: int| 0 <= x < cands@.len() && cands@[x]@ == k;
                assert(id_in(full, k));
                let fi = choose|i: int| 0 <= i < full.len() && full[i].bus_id@ == k;
                assert(full[fi].score == sc);
                assert(elem_in(sorted_full, full[fi]));
                let si = choose|s: int| 0 <= s < sorted_full.len() && sorted_full[s] == full[fi];
                assert(sorted_full[si].bus_id@ == k);
                assert(sorted_full[si].score == sc);
                if sorted_full.len() <= 50 {
                    assert(scored@[si].bus_id@ == k);
                    assert(id_in(scored@, k));
                } else {
                    if si < 50 {
                        assert(scored@[si].bus_id@ == k);
                        assert(id_in(scored@, k));
                    } else {
                        assert forall|i0: int|
                            0 <= i0 < scored@.len() implies #[trigger] scored@[i0].score >= sc by {
                            assert(scored@[i0] == sorted_full[i0]);
                            assert(sorted_full[i0].score >= sorted_full[si].score);
                        }
                    }
                }
            }
        }
        scored
    }
}

/// Copies a record vector.
fn copy_records(recs: &Vec<Record>) -> (r: Vec<Record>)
    ensures
        r@ == recs@,
{
    let n = recs.len();
    let mut out: Vec<Record> = Vec::new();
    let mut i: usize = 0;
    while i < n
        invariant
            0 <= i <= n,
            n == recs@.len(),
            out@ == recs@.take(i as int),
        decreases n - i,
    {
        out.push(recs[i]);
        proof {
            assert(out@ =~= recs@.take(i + 1));
        }
        i += 1;
    }
    proof {
        assert(recs@.take(n as int) =~= recs@);
    }
    out
}

/// Whether some element of `v` holds the same characters as `s`.
fn vec_contains_key(v: &Vec<String>, s: &String) -> (b: bool)
    ensures
        b == key_in(v@, s@),
{
    let n = v.len();
    let mut i: usize = 0;
    while i < n
        invariant
            0 <= i <= n,
            n == v@.len(),
            forall|a: int| 0 <= a < i ==> v@[a]@ != s@,
        decreases n - i,
    {
        if v[i] == *s {
            return true;
        }
        i += 1;
    }
    false
}

/// Sorts by score descending; the elements are rearranged, nothing else.
#[verifier::rlimit(100)]
fn sort_scored(v: &mut Vec<ScoredBus>)
    ensures
        final(v)@.len() == old(v)@.len(),
        forall|i: int, j: int|
            0 <= i <= j < final(v)@.len() ==> final(v)@[i].score >= final(v)@[j].score,
        forall|i: int| 0 <= i < final(v)@.len() ==> elem_in(old(v)@, #[trigger] final(v)@[i]),
        forall|j: int| 0 <= j < old(v)@.len() ==> elem_in(final(v)@, #[trigger] old(v)@[j]),
        (forall|i: int, j: int|
            0 <= i < j < old(v)@.len() ==> old(v)@[i].bus_id@ != old(v)@[j].bus_id@) ==> (
        forall|i: int, j: int|
            0 <= i < j < final(v)@.len() ==> final(v)@[i].bus_id@ != final(v)@[j].bus_id@),
{
    broadcast use vstd::seq_lib::group_to_multiset_ensures;
    broadcast use vstd::multiset::group_multiset_axioms;

    let n = v.len();
    let mut i: usize = 1;
    while i < n
        invariant
            1 <= i <= n || n == 0,
            n == v@.len(),
            n == old(v)@.len(),
            v@.to_multiset() == old(v)@.to_multiset(),
            forall|a: int, b: int| 0 <= a <= b < i ==> v@[a].score >= v@[b].score,
            (forall|a: int, b: int|
                0 <= a < b < n ==> old(v)@[a].bus_id@ != old(v)@[b].bus_id@) ==> (forall|
                a: int,
                b: int,
            |
                0 <= a < b < n ==> v@[a].bus_id@ != v@[b].bus_id@),
        decreases n - i,
    {
        let mut j: usize = i;
        while j > 0 && v[j - 1].score < v[j].score
            invariant
                0 <= j <= i < n,
                n == v@.len(),
                n == old(v)@.len(),
                v@.to_multiset() == old(v)@.to_multiset(),
                forall|a: int, b: int| 0 <= a <= b <= i && b != j ==> v@[a].score >= v@[b].score,
                (forall|a: int, b: int|
                    0 <= a < b < n ==> old(v)@[a].bus_id@ != old(v)@[b].bus_id@) ==> (forall|
                    a: int,
                    b: int,
                |
                    0 <= a < b < n ==> v@[a].bus_id@ != v@[b].bus_id@),
            decreases j,
        {
            let ghost pre = v@;
            let moved = v.remove(j);
            v.insert(j - 1, moved);
            proof {
                assert(v@ =~= pre.update(j - 1, pre[j as int]).update(j as int, pre[j - 1]));
                vstd::seq_lib::to_multiset_update(pre, j - 1, pre[j as int]);
                vstd::seq_lib::to_multiset_update(
                    pre.update(j - 1, pre[j as int]),
                    j as int,
                    pre[j - 1],
                );
                assert(pre.update(j - 1, pre[j as int])[j as int] == pre[j as int]);
                assert(pre.contains(pre[j - 1])) by {
                    assert(pre[j - 1] == pre[j - 1]);
                }
                vstd::seq_lib::to_multiset_contains(pre, pre[j - 1]);
                assert(v@.to_multiset() =~= pre.to_multiset());
            }
            j -= 1;
        }
        i += 1;
    }
    proof {
        assert forall|a: int| 0 <= a < v@.len() implies elem_in(old(v)@, #[trigger] v@[a]) by {
            assert(v@.contains(v@[a]));
            vstd::seq_lib::to_multiset_contains(v@, v@[a]);
            vstd::seq_lib::to_multiset_contains(old(v)@, v@[a]);
            assert(old(v)@.contains(v@[a]));
            let b = choose|b: int| 0 <= b < old(v)@.len() && old(v)@[b] == v@[a];
            assert(old(v)@[b] == v@[a]);
        }
        assert forall|b: int| 0 <= b < old(v)@.len() implies elem_in(v@, #[trigger] old(v)@[b]) by {
            assert(old(v)@.contains(old(v)@[b]));
            vstd::seq_lib::to_multiset_contains(old(v)@, old(v)@[b]);
            vstd::seq_lib::to_multiset_contains(v@, old(v)@[b]);
            assert(v@.contains(old(v)@[b]));
            let a = choose|a: int| 0 <= a < v@.len() && v@[a] == old(v)@[b];
            assert(v@[a] == old(v)@[b]);
        }
    }
}

} // verus!
