//! Inclusive numeric ranges and the question a range table asks of them: do they partition
//! `1..=max`?

use vstd::prelude::*;
use vstd::set_lib::*;

verus! {

/// Whether the inclusive range `low..=high` covers `n`.
pub open spec fn covers(range: (u32, u32), n: int) -> bool {
    range.0 <= n <= range.1
}

/// Whether some range of `ranges` covers `n`.
pub open spec fn covered(ranges: Seq<(u32, u32)>, n: int) -> bool {
    exists|i: int| 0 <= i < ranges.len() && #[trigger] covers(ranges[i], n)
}

/// Whether `ranges` partition `1..=max`: every range is non-empty and lies within `1..=max`, and
/// every value of `1..=max` is covered by exactly one range.
pub open spec fn partitions(ranges: Seq<(u32, u32)>, max: u32) -> bool {
    &&& forall|i: int| 0 <= i < ranges.len() ==> 1 <= (#[trigger] ranges[i]).0 <= ranges[i].1 <= max
    &&& forall|n: int| 1 <= n <= max ==> #[trigger] covered(ranges, n)
    &&& forall|n: int, i: int, j: int|
        0 <= i < ranges.len() && 0 <= j < ranges.len() && #[trigger] covers(ranges[i], n)
            && #[trigger] covers(ranges[j], n) ==> i == j
}


/// The first of the first `k` ranges that covers `n`.
pub open spec fn first_covering(ranges: Seq<(u32, u32)>, n: int, k: int) -> Option<int>
    decreases k,
{
    if k <= 0 {
        None
    } else {
        match first_covering(ranges, n, k - 1) {
            Some(i) => Some(i),
            None => if covers(ranges[k - 1], n) { Some(k - 1) } else { None },
        }
    }
}

/// What [`first_covering`] finds: the earliest covering range, or proof that none covers.
pub proof fn lemma_first_covering(ranges: Seq<(u32, u32)>, n: int, k: int)
    requires
        0 <= k <= ranges.len(),
    ensures
        match first_covering(ranges, n, k) {
            Some(i) => 0 <= i < k && covers(ranges[i], n)
                && forall|j: int| 0 <= j < i ==> !covers(#[trigger] ranges[j], n),
            None => forall|j: int| 0 <= j < k ==> !covers(#[trigger] ranges[j], n),
        },
    decreases k,
{
    if k > 0 {
        lemma_first_covering(ranges, n, k - 1);
    }
}

/// The index of the first range that covers `n`.
pub fn find_covering(ranges: &[(u32, u32)], n: u32) -> (r: Option<usize>)
    ensures
        match r {
            Some(i) => first_covering(ranges@, n as int, ranges@.len() as int) == Some(i as int),
            None => first_covering(ranges@, n as int, ranges@.len() as int) is None,
        },
{
    let mut i: usize = 0;
    while i < ranges.len()
        invariant
            0 <= i <= ranges@.len(),
            first_covering(ranges@, n as int, i as int) is None,
        decreases ranges.len() - i,
    {
        let (low, high) = ranges[i];
        if low <= n && n <= high {
            proof {
                lemma_first_covering_found(ranges@, n as int, i as int + 1, ranges@.len() as int);
            }
            return Some(i);
        }
        i = i + 1;
    }
    None
}

proof fn lemma_first_covering_found(ranges: Seq<(u32, u32)>, n: int, m: int, k: int)
    requires
        0 <= m <= k,
        first_covering(ranges, n, m) is Some,
    ensures
        first_covering(ranges, n, k) == first_covering(ranges, n, m),
    decreases k - m,
{
    if k > m {
        lemma_first_covering_found(ranges, n, m, k - 1);
    }
}


/// **A complete table answers every number once**: when the ranges partition `1..=max`, the
/// lookup of any `n` in `1..=max` finds a range, and that range is the only one covering `n`.
pub proof fn lemma_partition_answers_every_number(ranges: Seq<(u32, u32)>, max: u32, n: int)
    requires
        partitions(ranges, max),
        1 <= n <= max,
    ensures
        first_covering(ranges, n, ranges.len() as int) matches Some(i) && covers(ranges[i], n)
            && forall|j: int| 0 <= j < ranges.len() && #[trigger] covers(ranges[j], n) ==> j == i,
{
    lemma_first_covering(ranges, n, ranges.len() as int);
    assert(covered(ranges, n));
    let k = choose|i: int| 0 <= i < ranges.len() && #[trigger] covers(ranges[i], n);
    assert(first_covering(ranges, n, ranges.len() as int) is Some);
}

/// The first range whose low end is `low`.
fn find_low(ranges: &[(u32, u32)], low: u64) -> (r: Option<usize>)
    ensures
        match r {
            Some(j) => j < ranges@.len() && ranges@[j as int].0 == low,
            None => forall|k: int| 0 <= k < ranges@.len() ==> (#[trigger] ranges@[k]).0 != low,
        },
{
    let mut j: usize = 0;
    while j < ranges.len()
        invariant
            0 <= j <= ranges@.len(),
            forall|k: int| 0 <= k < j ==> (#[trigger] ranges@[k]).0 != low,
        decreases ranges.len() - j,
    {
        if ranges[j].0 as u64 == low {
            return Some(j);
        }
        j = j + 1;
    }
    None
}

/// Whether some range listed in `chain` covers `v`.
spec fn chain_covers(ranges: Seq<(u32, u32)>, chain: Seq<int>, v: int) -> bool {
    exists|t: int| 0 <= t < chain.len() && #[trigger] covers(ranges[chain[t]], v)
}

/// What the chain walk keeps: `chain` lists distinct ranges, each non-empty, laid end to end from
/// 1, together covering exactly `1..expected`.
spec fn chain_ok(ranges: Seq<(u32, u32)>, chain: Seq<int>, expected: int) -> bool {
    &&& expected >= 1
    &&& chain.no_duplicates()
    &&& forall|t: int| 0 <= t < chain.len() ==> 0 <= #[trigger] chain[t] < ranges.len()
    &&& forall|t: int| 0 <= t < chain.len() ==> 1 <= ranges[#[trigger] chain[t]].0 <= ranges[chain[t]].1 < expected
    &&& forall|t1: int, t2: int| 0 <= t1 < t2 < chain.len() ==> ranges[#[trigger] chain[t1]].1 < ranges[#[trigger] chain[t2]].0
    &&& forall|v: int| 1 <= v < expected ==> #[trigger] chain_covers(ranges, chain, v)
    &&& chain.len() > 0 ==> expected == ranges[chain.last()].1 + 1
    &&& chain.len() == 0 ==> expected == 1
}

/// A chain of `ranges.len()` distinct indices lists every range.
proof fn lemma_full_chain(ranges: Seq<(u32, u32)>, chain: Seq<int>, expected: int)
    requires
        chain_ok(ranges, chain, expected),
        chain.len() == ranges.len(),
    ensures
        forall|i: int| 0 <= i < ranges.len() ==> #[trigger] chain.contains(i),
{
    let all = set_int_range(0, ranges.len() as int);
    lemma_int_range(0, ranges.len() as int);
    chain.unique_seq_to_set();
    assert(chain.to_set().subset_of(all)) by {
        assert forall|x: int| chain.to_set().contains(x) implies all.contains(x) by {
            let t = choose|t: int| 0 <= t < chain.len() && chain[t] == x;
            assert(0 <= chain[t] < ranges.len());
        }
    }
    lemma_subset_equality(chain.to_set(), all);
    assert forall|i: int| 0 <= i < ranges.len() implies #[trigger] chain.contains(i) by {
        assert(all.contains(i));
        assert(chain.to_set().contains(i));
    }
}

/// A chain that lists every range, under a partition, has `ranges.len()` entries.
proof fn lemma_chain_length(ranges: Seq<(u32, u32)>, chain: Seq<int>, expected: int)
    requires
        chain_ok(ranges, chain, expected),
        chain.len() <= ranges.len(),
        forall|i: int| 0 <= i < ranges.len() ==> chain.contains(i),
    ensures
        chain.len() == ranges.len(),
{
    let all = set_int_range(0, ranges.len() as int);
    lemma_int_range(0, ranges.len() as int);
    chain.unique_seq_to_set();
    assert(all.subset_of(chain.to_set()));
    lemma_len_subset(all, chain.to_set());
}

/// Whether `ranges` partition `1..=max`.
///
/// The ranges are laid end to end from 1, each taking up where the last left off; they partition
/// `1..=max` exactly when that chain uses every range and ends at `max`.
pub fn partitions_exec(ranges: &[(u32, u32)], max: u32) -> (b: bool)
    ensures
        b == partitions(ranges@, max),
{
    let n = ranges.len();
    let mut expected: u64 = 1;
    let mut count: usize = 0;
    let ghost mut chain: Seq<int> = Seq::empty();
    while count < n
        invariant
            n == ranges@.len(),
            chain.len() == count <= n,
            expected <= u32::MAX as u64 + 1,
            chain_ok(ranges@, chain, expected as int),
        ensures
            chain_ok(ranges@, chain, expected as int),
            count < n ==> forall|k: int| 0 <= k < ranges@.len() ==> (#[trigger] ranges@[k]).0 != expected,
        decreases n - count,
    {
        let found = find_low(ranges, expected);
        let j = match found {
            Some(j) => j,
            None => {
                break;
            },
        };
        let (low, high) = ranges[j];
        if high < low {
            proof {
                assert(!(1 <= ranges@[j as int].0 <= ranges@[j as int].1));
            }
            return false;
        }
        proof {
            let old_chain = chain;
            let e = expected as int;
            assert forall|t: int| 0 <= t < old_chain.len() implies old_chain[t] != j by {
                assert(ranges@[old_chain[t]].1 < e);
            }
            chain = chain.push(j as int);
            let e2 = high as int + 1;
            assert(chain.no_duplicates()) by {
                assert forall|a: int, b: int| 0 <= a < chain.len() && 0 <= b < chain.len() && a != b
                    implies chain[a] != chain[b] by {
                    if a < old_chain.len() && b < old_chain.len() {
                        assert(old_chain[a] == chain[a] && old_chain[b] == chain[b]);
                    }
                }
            }
            assert forall|v: int| 1 <= v < e2 implies #[trigger] chain_covers(ranges@, chain, v) by {
                if v < e {
                    assert(chain_covers(ranges@, old_chain, v));
                    let t = choose|t: int| 0 <= t < old_chain.len() && #[trigger] covers(ranges@[old_chain[t]], v);
                    assert(chain[t] == old_chain[t]);
                } else {
                    assert(chain[old_chain.len() as int] == j);
                    assert(covers(ranges@[chain[old_chain.len() as int]], v));
                }
            }
            assert forall|t1: int, t2: int| 0 <= t1 < t2 < chain.len() implies ranges@[#[trigger] chain[t1]].1 < ranges@[#[trigger] chain[t2]].0 by {
                if t2 < old_chain.len() {
                    assert(chain[t1] == old_chain[t1] && chain[t2] == old_chain[t2]);
                } else {
                    assert(chain[t1] == old_chain[t1]);
                }
            }
            assert forall|t: int| 0 <= t < chain.len() implies 1 <= ranges@[#[trigger] chain[t]].0 <= ranges@[chain[t]].1 < e2 by {
                if t < old_chain.len() {
                    assert(chain[t] == old_chain[t]);
                }
            }
            assert forall|t: int| 0 <= t < chain.len() implies 0 <= #[trigger] chain[t] < ranges@.len() by {
                if t < old_chain.len() {
                    assert(chain[t] == old_chain[t]);
                }
            }
        }
        expected = high as u64 + 1;
        count = count + 1;
    }
    let result = count == n && expected == max as u64 + 1;
    proof {
        let e = expected as int;
        if result {
            lemma_full_chain(ranges@, chain, e);
            assert forall|n: int, i: int, j: int|
                0 <= i < ranges@.len() && 0 <= j < ranges@.len() && #[trigger] covers(ranges@[i], n)
                    && #[trigger] covers(ranges@[j], n) implies i == j by {
                assert(chain.contains(i) && chain.contains(j));
                let t1 = choose|t: int| 0 <= t < chain.len() && chain[t] == i;
                let t2 = choose|t: int| 0 <= t < chain.len() && chain[t] == j;
                if t1 < t2 {
                    assert(ranges@[chain[t1]].1 < ranges@[chain[t2]].0);
                } else if t2 < t1 {
                    assert(ranges@[chain[t2]].1 < ranges@[chain[t1]].0);
                }
            }
            assert forall|i: int| 0 <= i < ranges@.len() implies 1 <= (#[trigger] ranges@[i]).0 <= ranges@[i].1 <= max by {
                assert(chain.contains(i));
                let t = choose|t: int| 0 <= t < chain.len() && chain[t] == i;
                assert(1 <= ranges@[chain[t]].0 <= ranges@[chain[t]].1 < e);
            }
            assert forall|v: int| 1 <= v <= max implies #[trigger] covered(ranges@, v) by {
                assert(chain_covers(ranges@, chain, v));
                let t = choose|t: int| 0 <= t < chain.len() && #[trigger] covers(ranges@[chain[t]], v);
                assert(0 <= chain[t] < ranges@.len());
            }
        } else if partitions(ranges@, max) {
            // The chain cannot stop short of `max`, and it cannot leave a range out.
            assert(e <= max + 1) by {
                if chain.len() > 0 {
                    let last = chain.len() - 1;
                    assert(0 <= chain[last] < ranges@.len());
                    assert(ranges@[chain[last]].1 <= max);
                    assert(chain.last() == chain[last]);
                    assert(e == ranges@[chain[last]].1 + 1);
                }
            }
            if e <= max {
                assert(covered(ranges@, e));
                let i = choose|i: int| 0 <= i < ranges@.len() && #[trigger] covers(ranges@[i], e);
                if ranges@[i].0 < e {
                    let low = ranges@[i].0 as int;
                    assert(chain_covers(ranges@, chain, low));
                    let t = choose|t: int| 0 <= t < chain.len() && #[trigger] covers(ranges@[chain[t]], low);
                    assert(0 <= chain[t] < ranges@.len());
                    assert(covers(ranges@[i], low));
                    assert(chain[t] == i);
                    assert(false);
                }
                if count < n {
                    assert(ranges@[i].0 != e);
                } else {
                    lemma_full_chain(ranges@, chain, e);
                    assert(chain.contains(i));
                    let t = choose|t: int| 0 <= t < chain.len() && chain[t] == i;
                    assert(ranges@[chain[t]].1 < e);
                }
                assert(false);
            } else {
                assert forall|k: int| 0 <= k < ranges@.len() implies chain.contains(k) by {
                    let low = ranges@[k].0 as int;
                    assert(chain_covers(ranges@, chain, low));
                    let t = choose|t: int| 0 <= t < chain.len() && #[trigger] covers(ranges@[chain[t]], low);
                    assert(0 <= chain[t] < ranges@.len());
                    assert(covers(ranges@[k], low));
                    assert(chain[t] == k);
                }
                lemma_chain_length(ranges@, chain, e);
                assert(false);
            }
        }
    }
    result
}

} // verus!
