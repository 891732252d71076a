//! Percentile estimation over one window's samples, and classification of a
//! raw value into an integer rank against a set of breakpoints.
use vstd::prelude::*;
use crate::model::Percentiles;

verus! {

/// The ordering under which samples are sorted.
pub open spec fn u16_leq() -> spec_fn(u16, u16) -> bool {
    |x: u16, y: u16| x <= y
}

/// Non-decreasing sequence of samples.
pub open spec fn sorted_u16(s: Seq<u16>) -> bool {
    forall|i: int, j: int| 0 <= i <= j < s.len() ==> s[i] <= s[j]
}

/// The unique sorted permutation of a sample sequence.
pub open spec fn sorted_version(s: Seq<u16>) -> Seq<u16> {
    s.sort_by(u16_leq())
}

/// Zero-based nearest-rank index for a breakpoint given in per-mille:
/// `round((n - 1) * per_mille / 1000)`, rounding half up.
pub open spec fn pct_index(per_mille: int, n: int) -> int {
    ((n - 1) * per_mille + 500) / 1000
}

proof fn lemma_pct_index_bounds(n: int, k: int)
    requires
        n >= 1,
        0 <= k <= 999,
    ensures
        0 <= pct_index(k, n) < n,
{
    let num = (n - 1) * k + 500;
    vstd::arithmetic::mul::lemma_mul_nonnegative(n - 1, k);
    vstd::arithmetic::div_mod::lemma_div_is_ordered(0, num, 1000);
    vstd::arithmetic::div_mod::lemma_div_of0(1000);
    vstd::arithmetic::mul::lemma_mul_inequality(k, 999, n - 1);
    assert((n - 1) * k == k * (n - 1)) by (nonlinear_arith);
    assert((n - 1) * 999 == 999 * (n - 1)) by (nonlinear_arith);
    assert(num <= (n - 1) * 1000 + 500) by {
        assert((n - 1) * 999 <= (n - 1) * 1000) by (nonlinear_arith)
            requires n >= 1;
    }
    vstd::arithmetic::div_mod::lemma_div_is_ordered(num, (n - 1) * 1000 + 500, 1000);
    vstd::arithmetic::div_mod::lemma_fundamental_div_mod_converse(
        (n - 1) * 1000 + 500,
        1000,
        n - 1,
        500,
    );
}

proof fn lemma_pct_index_mono(n: int, k1: int, k2: int)
    requires
        n >= 1,
        0 <= k1 <= k2 <= 999,
    ensures
        pct_index(k1, n) <= pct_index(k2, n),
{
    vstd::arithmetic::mul::lemma_mul_inequality(k1, k2, n - 1);
    assert((n - 1) * k1 == k1 * (n - 1)) by (nonlinear_arith);
    assert((n - 1) * k2 == k2 * (n - 1)) by (nonlinear_arith);
    vstd::arithmetic::div_mod::lemma_div_is_ordered(
        (n - 1) * k1 + 500,
        (n - 1) * k2 + 500,
        1000,
    );
}

/// Sorts the samples ascending, in place.
fn sort_samples(v: &mut Vec<u16>)
    ensures
        sorted_u16(final(v)@),
        final(v)@.to_multiset() == old(v)@.to_multiset(),
        final(v)@.len() == old(v)@.len(),
{
    broadcast use vstd::seq_lib::group_to_multiset_ensures;

    let n = v.len();
    let mut i: usize = 1;
    while i < n
        invariant
            1 <= i <= n || n == 0,
            n == v@.len(),
            v@.to_multiset() == old(v)@.to_multiset(),
            forall|a: int, b: int| 0 <= a <= b < i ==> v@[a] <= v@[b],
        decreases n - i,
    {
        let mut j: usize = i;
        while j > 0 && v[j - 1] > v[j]
            invariant
                0 <= j <= i < n,
                n == v@.len(),
                v@.to_multiset() == old(v)@.to_multiset(),
                forall|a: int, b: int| 0 <= a <= b <= i && b != j ==> v@[a] <= v@[b],
            decreases j,
        {
            let ghost pre = v@;
            let x = v[j - 1];
            let y = v[j];
            v[j - 1] = y;
            v[j] = x;
            proof {
                broadcast use vstd::multiset::group_multiset_axioms;

                vstd::seq_lib::to_multiset_update(pre, j - 1, y);
                vstd::seq_lib::to_multiset_update(pre.update(j - 1, y), j as int, x);
                assert(pre.update(j - 1, y)[j as int] == pre[j as int]);
                assert(pre.contains(x)) by {
                    assert(pre[j - 1] == x);
                }
                vstd::seq_lib::to_multiset_contains(pre, x);
                assert(pre.to_multiset().count(x) > 0);
                assert(v@.to_multiset() =~= pre.to_multiset());
            }
            j -= 1;
        }
        i += 1;
    }
}

/// Computes the fixed breakpoint at `per_mille` from a sorted sample vector.
fn pct_at(sorted: &Vec<u16>, per_mille: u64) -> (r: u16)
    requires
        sorted.len() >= 1,
        per_mille <= 999,
        sorted_u16(sorted@),
    ensures
        r == sorted@[pct_index(per_mille as int, sorted@.len() as int)],
{
    let n = sorted.len();
    proof {
        lemma_pct_index_bounds(n as int, per_mille as int);
        vstd::arithmetic::mul::lemma_mul_inequality(per_mille as int, 999, (n - 1) as int);
        vstd::arithmetic::mul::lemma_mul_inequality((n - 1) as int, u64::MAX as int, 999);
        assert(((n - 1) as int) * (per_mille as int) == (per_mille as int) * ((n - 1) as int))
            by (nonlinear_arith);
        assert(999 * ((n - 1) as int) == ((n - 1) as int) * 999) by (nonlinear_arith);
    }
    let num: u128 = ((n - 1) as u128) * (per_mille as u128) + 500;
    let idx_wide: u128 = num / 1000;
    let idx = idx_wide as usize;
    sorted[idx]
}

/// True when the twelve breakpoints are non-decreasing.
pub open spec fn breakpoints_ordered(p: Percentiles) -> bool {
    p.p0 <= p.p25 && p.p25 <= p.p50 && p.p50 <= p.p75 && p.p75 <= p.p80 && p.p80 <= p.p85
        && p.p85 <= p.p90 && p.p90 <= p.p95 && p.p95 <= p.p98 && p.p98 <= p.p99
        && p.p99 <= p.p99_5 && p.p99_5 <= p.p99_9
}

/// The breakpoints that a non-empty sample sequence determines: each is the
/// element of the sorted permutation selected by nearest-rank.
pub open spec fn spec_percentiles(s: Seq<u16>) -> Percentiles {
    let sv = sorted_version(s);
    let n = s.len() as int;
    Percentiles {
        p0: sv[pct_index(0, n)],
        p25: sv[pct_index(250, n)],
        p50: sv[pct_index(500, n)],
        p75: sv[pct_index(750, n)],
        p80: sv[pct_index(800, n)],
        p85: sv[pct_index(850, n)],
        p90: sv[pct_index(900, n)],
        p95: sv[pct_index(950, n)],
        p98: sv[pct_index(980, n)],
        p99: sv[pct_index(990, n)],
        p99_5: sv[pct_index(995, n)],
        p99_9: sv[pct_index(999, n)],
    }
}

/// All-zero breakpoints, produced for an empty sample set.
pub open spec fn zero_percentiles() -> Percentiles {
    Percentiles {
        p0: 0u16, p25: 0u16, p50: 0u16, p75: 0u16, p80: 0u16, p85: 0u16,
        p90: 0u16, p95: 0u16, p98: 0u16, p99: 0u16, p99_5: 0u16, p99_9: 0u16,
    }
}

/// Computes the window's distribution breakpoints. Sorts `samples` in place;
/// an empty input yields all breakpoints at zero. The breakpoints are always
/// non-decreasing.
pub fn calc_percentiles(samples: &mut Vec<u16>) -> (r: Percentiles)
    ensures
        final(samples)@ == sorted_version(old(samples)@),
        final(samples)@.len() == old(samples)@.len(),
        r == if old(samples)@.len() == 0 {
            zero_percentiles()
        } else {
            spec_percentiles(old(samples)@)
        },
        breakpoints_ordered(r),
{
    proof {
        old(samples)@.lemma_sort_by_ensures(u16_leq());
    }
    if samples.len() == 0 {
        proof {
            broadcast use vstd::seq_lib::group_to_multiset_ensures;

            assert(sorted_version(old(samples)@).to_multiset() =~= old(samples)@.to_multiset());
            vstd::seq_lib::to_multiset_len(sorted_version(old(samples)@));
            vstd::seq_lib::to_multiset_len(old(samples)@);
            assert(sorted_version(old(samples)@).len() == 0);
            assert(samples@ =~= sorted_version(old(samples)@));
        }
        return Percentiles {
            p0: 0, p25: 0, p50: 0, p75: 0, p80: 0, p85: 0,
            p90: 0, p95: 0, p98: 0, p99: 0, p99_5: 0, p99_9: 0,
        };
    }
    sort_samples(samples);
    proof {
        let leq = u16_leq();
        assert(vstd::relations::total_ordering(leq));
        assert(vstd::relations::sorted_by(samples@, leq));
        vstd::seq_lib::lemma_sorted_unique(samples@, sorted_version(old(samples)@), leq);
        assert(samples@ =~= sorted_version(old(samples)@));
        let n = old(samples)@.len() as int;
        lemma_pct_index_mono(n, 0, 250);
        lemma_pct_index_mono(n, 250, 500);
        lemma_pct_index_mono(n, 500, 750);
        lemma_pct_index_mono(n, 750, 800);
        lemma_pct_index_mono(n, 800, 850);
        lemma_pct_index_mono(n, 850, 900);
        lemma_pct_index_mono(n, 900, 950);
        lemma_pct_index_mono(n, 950, 980);
        lemma_pct_index_mono(n, 980, 990);
        lemma_pct_index_mono(n, 990, 995);
        lemma_pct_index_mono(n, 995, 999);
        lemma_pct_index_bounds(n, 0);
        lemma_pct_index_bounds(n, 999);
    }
    let p = Percentiles {
        p0: pct_at(samples, 0),
        p25: pct_at(samples, 250),
        p50: pct_at(samples, 500),
        p75: pct_at(samples, 750),
        p80: pct_at(samples, 800),
        p85: pct_at(samples, 850),
        p90: pct_at(samples, 900),
        p95: pct_at(samples, 950),
        p98: pct_at(samples, 980),
        p99: pct_at(samples, 990),
        p99_5: pct_at(samples, 995),
        p99_9: pct_at(samples, 999),
    };
    p
}

/// The rank that a set of breakpoints assigns to a value: the label of the
/// smallest breakpoint strictly greater than the value, with the band between
/// the 99th and the 99.5th percentile collapsed into the label 99, and 100
/// for everything at or above the 99.9th breakpoint.
pub open spec fn spec_rank(p: Percentiles, value: u16) -> u8 {
    if value < p.p0 {
        0u8
    } else if value < p.p25 {
        25u8
    } else if value < p.p50 {
        50u8
    } else if value < p.p75 {
        75u8
    } else if value < p.p80 {
        80u8
    } else if value < p.p85 {
        85u8
    } else if value < p.p90 {
        90u8
    } else if value < p.p95 {
        95u8
    } else if value < p.p98 {
        98u8
    } else if value < p.p99 {
        99u8
    } else if value < p.p99_5 {
        99u8
    } else {
        100u8
    }
}

impl Percentiles {
    /// Classifies a raw value against these breakpoints.
    pub fn get_rank(&self, value: u16) -> (r: u8)
        ensures
            r == spec_rank(*self, value),
            r <= 100,
    {
        if value < self.p0 {
            return 0;
        }
        if value < self.p25 {
            return 25;
        }
        if value < self.p50 {
            return 50;
        }
        if value < self.p75 {
            return 75;
        }
        if value < self.p80 {
            return 80;
        }
        if value < self.p85 {
            return 85;
        }
        if value < self.p90 {
            return 90;
        }
        if value < self.p95 {
            return 95;
        }
        if value < self.p98 {
            return 98;
        }
        if value < self.p99 {
            return 99;
        }
        if value < self.p99_5 {
            return 99;
        }
        100
    }
}

/// A value lying exactly on a breakpoint is classified into the band above
/// that breakpoint, never into the band below it: the boundary comparison is
/// strict. At the two collapsed breakpoints this reads as follows: a value at
/// the 99th breakpoint still lands in a band labelled 99 (the collapsed
/// 99-to-99.5 band), and a value at or above the 99.9th breakpoint is 100.
pub proof fn lemma_rank_boundary_strict(p: Percentiles, v: u16)
    requires
        breakpoints_ordered(p),
    ensures
        v == p.p0 ==> spec_rank(p, v) != 0,
        v == p.p25 ==> spec_rank(p, v) != 25,
        v == p.p50 ==> spec_rank(p, v) != 50,
        v == p.p75 ==> spec_rank(p, v) != 75,
        v == p.p80 ==> spec_rank(p, v) != 80,
        v == p.p85 ==> spec_rank(p, v) != 85,
        v == p.p90 ==> spec_rank(p, v) != 90,
        v == p.p95 ==> spec_rank(p, v) != 95,
        v == p.p98 ==> spec_rank(p, v) != 98,
        v >= p.p99_9 ==> spec_rank(p, v) == 100,
{
}

} // verus!


