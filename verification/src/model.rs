//! Core data model: records, percentile breakpoints, window statistics and
//! chunks, together with the specification-level view of string-keyed tables.
use vstd::prelude::*;

verus! {

/// One accepted update for one entity within one aggregation window.
/// `interval` and `latency` are saturated to the 16-bit range.
#[derive(Clone, Copy, PartialEq, Eq, Structural, Debug)]
pub struct Record {
    /// Seconds between the two consecutive updates of the entity.
    pub interval: u16,
    /// Unix timestamp at which the interval ended.
    pub end_of_interval: u64,
    /// Seconds between the update and the dataset publish time.
    pub latency: u16,
    /// Percentile rank (0-100) of `interval` within its window.
    pub rank: u8,
}

/// Distribution breakpoints of one window, in whole seconds.
#[derive(Clone, Copy, PartialEq, Eq, Structural, Debug)]
pub struct Percentiles {
    pub p0: u16,
    pub p25: u16,
    pub p50: u16,
    pub p75: u16,
    pub p80: u16,
    pub p85: u16,
    pub p90: u16,
    pub p95: u16,
    pub p98: u16,
    pub p99: u16,
    pub p99_5: u16,
    pub p99_9: u16,
}

/// System-wide statistics for one aggregation window.
#[derive(Clone, Copy, PartialEq, Eq, Structural, Debug)]
pub struct SystemStats {
    /// Window-close unix timestamp.
    pub timestamp: u64,
    pub interval_stats: Percentiles,
    pub latency_stats: Percentiles,
    pub sample_count: u32,
}

/// The immutable result of one window: statistics plus per-entity records.
/// Entity keys are unique; see [`chunk_wf`].
pub struct ChunkFile {
    pub stats: SystemStats,
    pub records: Vec<(String, Vec<Record>)>,
}

/// Whether `key` occurs as an entity key of the table.
pub open spec fn table_has_key<V>(t: Seq<(String, V)>, key: Seq<char>) -> bool {
    exists|i: int| 0 <= i < t.len() && t[i].0@ == key
}

/// The index at which `key` occurs (meaningful only when `table_has_key`).
pub open spec fn table_index<V>(t: Seq<(String, V)>, key: Seq<char>) -> int {
    choose|i: int| 0 <= i < t.len() && t[i].0@ == key
}

/// No entity key occurs twice.
pub open spec fn table_keys_unique<V>(t: Seq<(String, V)>) -> bool {
    forall|i: int, j: int| 0 <= i < j < t.len() ==> t[i].0@ != t[j].0@
}

/// The record sequence stored under `key`, or the empty sequence if absent.
pub open spec fn lookup_recs(t: Seq<(String, Vec<Record>)>, key: Seq<char>) -> Seq<Record> {
    if table_has_key(t, key) {
        t[table_index(t, key)].1@
    } else {
        Seq::<Record>::empty()
    }
}

/// In a table with unique keys, any position holding `key` is the position
/// that `table_index` denotes.
pub proof fn lemma_table_index_unique<V>(t: Seq<(String, V)>, key: Seq<char>, i: int)
    requires
        table_keys_unique(t),
        0 <= i < t.len(),
        t[i].0@ == key,
    ensures
        table_has_key(t, key),
        table_index(t, key) == i,
{
    assert(table_has_key(t, key));
    let j = table_index(t, key);
    assert(0 <= j < t.len() && t[j].0@ == key);
    if i < j {
        assert(t[i].0@ != t[j].0@);
    } else if j < i {
        assert(t[j].0@ != t[i].0@);
    }
}

/// The timestamp stored under `key` (meaningful only when `table_has_key`).
pub open spec fn lookup_ts(t: Seq<(String, u64)>, key: Seq<char>) -> u64 {
    if table_has_key(t, key) {
        t[table_index(t, key)].1
    } else {
        0u64
    }
}

/// Saturation of a non-negative count of seconds to the 16-bit range.
pub open spec fn sat16(x: int) -> u16 {
    if x > 65535 {
        65535u16
    } else {
        x as u16
    }
}

/// Whether appending `rec` to the records stored under `key` keeps that
/// sequence ascending.
pub open spec fn rec_fits(t: Seq<(String, Vec<Record>)>, key: Seq<char>, rec: Record) -> bool {
    lookup_recs(t, key).len() == 0 || lookup_recs(t, key).last().end_of_interval
        <= rec.end_of_interval
}

/// Record timestamps never decrease along the sequence.
pub open spec fn records_ascending(rs: Seq<Record>) -> bool {
    forall|i: int, j: int|
        0 <= i <= j < rs.len() ==> rs[i].end_of_interval <= rs[j].end_of_interval
}

/// Validity of a chunk: unique entity keys, no empty record sequences,
/// per-entity records ascending in time, and ranks within 0-100.
pub open spec fn chunk_wf(c: &ChunkFile) -> bool {
    &&& table_keys_unique(c.records@)
    &&& forall|i: int| 0 <= i < c.records@.len() ==> c.records@[i].1@.len() > 0
    &&& forall|i: int| 0 <= i < c.records@.len() ==> records_ascending(c.records@[i].1@)
    &&& forall|i: int, j: int|
        0 <= i < c.records@.len() && 0 <= j < c.records@[i].1@.len()
            ==> c.records@[i].1@[j].rank <= 100
}

/// Appends `rec` to the record sequence stored under `name`, creating the
/// entry if it is absent. All other entries are left untouched.
pub fn table_push_record(t: &mut Vec<(String, Vec<Record>)>, name: &String, rec: Record)
    requires
        table_keys_unique(old(t)@),
    ensures
        table_keys_unique(final(t)@),
        table_has_key(final(t)@, name@),
        lookup_recs(final(t)@, name@) == lookup_recs(old(t)@, name@).push(rec),
        forall|k: Seq<char>|
            k != name@ ==> (table_has_key(final(t)@, k) <==> table_has_key(old(t)@, k)),
        forall|k: Seq<char>|
            k != name@ && table_has_key(old(t)@, k) ==> lookup_recs(final(t)@, k) == lookup_recs(
                old(t)@,
                k,
            ),
        (forall|i: int| 0 <= i < old(t)@.len() ==> old(t)@[i].1@.len() > 0) ==> (forall|i: int|
            0 <= i < final(t)@.len() ==> final(t)@[i].1@.len() > 0),
        ((forall|i: int| 0 <= i < old(t)@.len() ==> records_ascending(old(t)@[i].1@)) && rec_fits(
            old(t)@,
            name@,
            rec,
        )) ==> (forall|i: int| 0 <= i < final(t)@.len() ==> records_ascending(final(t)@[i].1@)),
{
    let n = t.len();
    let mut i: usize = 0;
    while i < n
        invariant
            0 <= i <= n,
            n == t@.len(),
            t@ == old(t)@,
            table_keys_unique(t@),
            forall|a: int| 0 <= a < i ==> t@[a].0@ != name@,
        decreases n - i,
    {
        if t[i].0 == *name {
            proof {
                lemma_table_index_unique(t@, name@, i as int);
            }
            let ghost pre = t@;
            t[i].1.push(rec);
            proof {
                assert(t@.len() == pre.len());
                assert(t@[i as int].0 == pre[i as int].0);
                assert(t@[i as int].1@ == pre[i as int].1@.push(rec));
                assert(forall|a: int| 0 <= a < t@.len() && a != i ==> t@[a] == pre[a]);
                assert forall|a: int| 0 <= a < t@.len() implies t@[a].0@ == pre[a].0@ by {}
                lemma_table_index_unique(t@, name@, i as int);
                assert forall|k: Seq<char>| k != name@ && table_has_key(pre, k) implies lookup_recs(
                    t@,
                    k,
                ) == lookup_recs(pre, k) by {
                    let a = table_index(pre, k);
                    lemma_table_index_unique(t@, k, a);
                }
                assert forall|k: Seq<char>| k != name@ && table_has_key(t@, k) implies table_has_key(
                    pre,
                    k,
                ) by {
                    let a = table_index(t@, k);
                    assert(pre[a].0@ == k);
                }
                assert(lookup_recs(t@, name@) =~= lookup_recs(pre, name@).push(rec));
            }
            return ;
        }
        i += 1;
    }
    assert(!table_has_key(t@, name@));
    let ghost pre = t@;
    let mut fresh: Vec<Record> = Vec::new();
    fresh.push(rec);
    t.push((name.clone(), fresh));
    proof {
        assert(t@[n as int].0@ == name@);
        lemma_table_index_unique(t@, name@, n as int);
        assert(lookup_recs(t@, name@) =~= lookup_recs(pre, name@).push(rec));
        assert forall|k: Seq<char>| k != name@ && table_has_key(pre, k) implies lookup_recs(t@, k)
            == lookup_recs(pre, k) by {
            let a = table_index(pre, k);
            lemma_table_index_unique(t@, k, a);
        }
        assert forall|k: Seq<char>| k != name@ && table_has_key(t@, k) implies table_has_key(
            pre,
            k,
        ) by {
            let a = table_index(t@, k);
            assert(a < n);
            assert(pre[a].0@ == k);
        }
        assert forall|k: Seq<char>| k != name@ && table_has_key(pre, k) implies table_has_key(
            t@,
            k,
        ) by {
            let a = table_index(pre, k);
            assert(t@[a].0@ == k);
        }
    }
}

/// Stores `ts` under `name`, creating the entry if it is absent. All other
/// entries are left untouched.
pub fn table_set_ts(t: &mut Vec<(String, u64)>, name: &String, ts: u64)
    requires
        table_keys_unique(old(t)@),
    ensures
        table_keys_unique(final(t)@),
        table_has_key(final(t)@, name@),
        lookup_ts(final(t)@, name@) == ts,
        forall|k: Seq<char>|
            k != name@ ==> (table_has_key(final(t)@, k) <==> table_has_key(old(t)@, k)),
        forall|k: Seq<char>|
            k != name@ && table_has_key(old(t)@, k) ==> lookup_ts(final(t)@, k) == lookup_ts(
                old(t)@,
                k,
            ),
{
    let n = t.len();
    let mut i: usize = 0;
    while i < n
        invariant
            0 <= i <= n,
            n == t@.len(),
            t@ == old(t)@,
            table_keys_unique(t@),
            forall|a: int| 0 <= a < i ==> t@[a].0@ != name@,
        decreases n - i,
    {
        if t[i].0 == *name {
            proof {
                lemma_table_index_unique(t@, name@, i as int);
            }
            let ghost pre = t@;
            t[i].1 = ts;
            proof {
                assert(t@.len() == pre.len());
                assert(t@[i as int].0 == pre[i as int].0);
                assert(t@[i as int].1 == ts);
                assert(forall|a: int| 0 <= a < t@.len() && a != i ==> t@[a] == pre[a]);
                assert forall|a: int| 0 <= a < t@.len() implies t@[a].0@ == pre[a].0@ by {}
                lemma_table_index_unique(t@, name@, i as int);
                assert forall|k: Seq<char>| k != name@ && table_has_key(pre, k) implies lookup_ts(
                    t@,
                    k,
                ) == lookup_ts(pre, k) by {
                    let a = table_index(pre, k);
                    lemma_table_index_unique(t@, k, a);
                }
                assert forall|k: Seq<char>| k != name@ && table_has_key(t@, k) implies table_has_key(
                    pre,
                    k,
                ) by {
                    let a = table_index(t@, k);
                    assert(pre[a].0@ == k);
                }
            }
            return ;
        }
        i += 1;
    }
    assert(!table_has_key(t@, name@));
    let ghost pre = t@;
    t.push((name.clone(), ts));
    proof {
        assert(t@[n as int].0@ == name@);
        lemma_table_index_unique(t@, name@, n as int);
        assert forall|k: Seq<char>| k != name@ && table_has_key(pre, k) implies lookup_ts(t@, k)
            == lookup_ts(pre, k) by {
            let a = table_index(pre, k);
            lemma_table_index_unique(t@, k, a);
        }
        assert forall|k: Seq<char>| k != name@ && table_has_key(t@, k) implies table_has_key(
            pre,
            k,
        ) by {
            let a = table_index(t@, k);
            assert(a < n);
            assert(pre[a].0@ == k);
        }
        assert forall|k: Seq<char>| k != name@ && table_has_key(pre, k) implies table_has_key(
            t@,
            k,
        ) by {
            let a = table_index(pre, k);
            assert(t@[a].0@ == k);
        }
    }
}

impl ChunkFile {
    /// Runtime validity check, for callers that obtain a chunk from an
    /// untrusted source (such as a decoded file).
    pub fn check_wf(&self) -> (ok: bool)
        ensures
            ok == chunk_wf(self),
    {
        let n = self.records.len();
        let mut i: usize = 0;
        while i < n
            invariant
                0 <= i <= n,
                n == self.records@.len(),
                forall|a: int, b: int| 0 <= a < b < i ==> self.records@[a].0@ != self.records@[b].0@,
                forall|a: int| 0 <= a < i ==> self.records@[a].1@.len() > 0,
                forall|a: int| 0 <= a < i ==> records_ascending(self.records@[a].1@),
                forall|a: int, b: int|
                    0 <= a < i && 0 <= b < self.records@[a].1@.len()
                        ==> self.records@[a].1@[b].rank <= 100,
            decreases n - i,
        {
            // keys before position i must all differ from the key at i
            let mut a: usize = 0;
            while a < i
                invariant
                    0 <= a <= i < n,
                    n == self.records@.len(),
                    forall|b: int| 0 <= b < a ==> self.records@[b].0@ != self.records@[i as int].0@,
                decreases i - a,
            {
                if self.records[a].0 == self.records[i].0 {
                    assert(!table_keys_unique(self.records@));
                    return false;
                }
                a += 1;
            }
            let recs = &self.records[i].1;
            if recs.len() == 0 {
                return false;
            }
            let m = recs.len();
            let mut b: usize = 0;
            while b < m
                invariant
                    0 <= b <= m,
                    0 <= i < n,
                    n == self.records@.len(),
                    recs@ == self.records@[i as int].1@,
                    m == recs@.len(),
                    forall|x: int, y: int|
                        0 <= x <= y < b ==> recs@[x].end_of_interval <= recs@[y].end_of_interval,
                    forall|x: int| 0 <= x < b ==> recs@[x].rank <= 100,
                decreases m - b,
            {
                if b > 0 && recs[b - 1].end_of_interval > recs[b].end_of_interval {
                    assert(!records_ascending(recs@));
                    return false;
                }
                if recs[b].rank > 100 {
                    return false;
                }
                b += 1;
            }
            assert(records_ascending(self.records@[i as int].1@));
            i += 1;
        }
        true
    }
}

} // verus!
