//! What the statistics count.
use crate::data::MetaId;
use crate::memory::Heap;
use crate::search::{assignment_bin, DFSResult};
use crate::stats::{info_from, meta_info, AssignmentStats, MetaStats, SearchInfo, Tally};
use vstd::prelude::*;

verus! {

/// The statistics after the attempts `seen`, one after the other.
pub open spec fn after(seen: Seq<(DFSResult, SearchInfo)>) -> MetaStats
    decreases seen.len(),
{
    if seen.len() == 0 {
        MetaStats::zero()
    } else {
        after(seen.drop_last()).plus(MetaStats::observed(seen.last().0, seen.last().1))
    }
}

/// The statistics of attempts tell how many there were, in how many the metavariable was completed,
/// and in how many nothing was left unknown.
pub proof fn law_attempts_counted(seen: Seq<(DFSResult, SearchInfo)>)
    requires
        seen.len() <= u32::MAX,
    ensures
        after(seen).attempts == seen.len(),
        after(seen).completed_count == seen.filter(
            |x: (DFSResult, SearchInfo)| x.1.dfs_completed,
        ).len(),
        after(seen).failures == seen.filter(
            |x: (DFSResult, SearchInfo)| x.0.unknown_count == 0,
        ).len(),
    decreases seen.len(),
{
    let done = |x: (DFSResult, SearchInfo)| x.1.dfs_completed;
    let failed = |x: (DFSResult, SearchInfo)| x.0.unknown_count == 0;
    reveal(Seq::filter);
    if seen.len() > 0 {
        law_attempts_counted(seen.drop_last());
        seen.drop_last().lemma_filter_len(done);
        seen.drop_last().lemma_filter_len(failed);
    }
}

/// The statistics after the uses `seen` of an assignment, each with whether it had a share in the
/// completion, and whether the metavariable was ever completed.
pub open spec fn after_uses(seen: Seq<(bool, bool)>) -> AssignmentStats
    decreases seen.len(),
{
    if seen.len() == 0 {
        AssignmentStats::zero()
    } else {
        after_uses(seen.drop_last()).plus(AssignmentStats::observed(seen.last().0, seen.last().1))
    }
}

/// The statistics of the uses of an assignment tell how many there were, in how many the
/// metavariable was ever completed, and in how many of those the assignment had a share.
pub proof fn law_uses_counted(seen: Seq<(bool, bool)>)
    requires
        seen.len() <= u32::MAX,
    ensures
        after_uses(seen).count == seen.len(),
        after_uses(seen).completion_count == seen.filter(|x: (bool, bool)| x.1).len(),
        after_uses(seen).completion_share == seen.filter(|x: (bool, bool)| x.0 && x.1).len(),
    decreases seen.len(),
{
    let done = |x: (bool, bool)| x.1;
    let shared = |x: (bool, bool)| x.0 && x.1;
    reveal(Seq::filter);
    if seen.len() > 0 {
        law_uses_counted(seen.drop_last());
        seen.drop_last().lemma_filter_len(done);
        seen.drop_last().lemma_filter_len(shared);
    }
}

/// Whether `sum` is the sum of the counts of `a` and `b`.
pub open spec fn adds_up(a: MetaStats, b: MetaStats, sum: MetaStats) -> bool {
    &&& sum.attempts == a.attempts + b.attempts
    &&& sum.completed_count == a.completed_count + b.completed_count
    &&& sum.failures == a.failures + b.failures
}

/// What is counted under `k`, nothing if nothing was recorded.
pub open spec fn counted(stats: Map<u64, MetaStats>, k: u64) -> MetaStats {
    if stats.contains_key(k) {
        stats[k]
    } else {
        MetaStats { completed_count: 0, attempts: 0, failures: 0 }
    }
}

/// The information on a metavariable is taken from the statistics of its type, where those with a
/// rigid equation are counted apart. What is to come may be of both kinds, unless there is a rigid
/// equation already.
pub proof fn law_info_counts(
    h: Heap,
    m: MetaId,
    stats: Map<u64, MetaStats>,
    fuel: nat,
    next: u64,
)
    ensures
        meta_info(h, m, stats, fuel, next) matches Ok((info, _)) ==> {
            let key = h.metas[m as int].typ->0.base.key;
            &&& info.meta == m
            &&& h.metas[m as int].typ is Some
            &&& key < u64::MAX
            &&& info.bin == key + if info.has_rigid_equation {
                1int
            } else {
                0
            }
            &&& info.current_stats == counted(stats, info.bin)
            &&& info.has_rigid_equation ==> info.future_stats == info.current_stats
            &&& !info.has_rigid_equation ==> adds_up(
                counted(stats, key),
                counted(stats, (key + 1) as u64),
                info.future_stats,
            )
        },
{
    if let Ok((info, _)) = meta_info(h, m, stats, fuel, next) {
        let key = h.metas[m as int].typ->0.base.key;
        let rigid = info.has_rigid_equation;
        assert(info_from(m, key, rigid, stats) is Ok);
        assert(MetaStats::zero() == (MetaStats { completed_count: 0, attempts: 0, failures: 0 }));
    }
}

/// Assignments of a variable that differ in whether its type is rigid are counted apart.
pub proof fn law_bins_apart(key: u64, bind: usize)
    ensures
        assignment_bin(key, bind, true) != assignment_bin(key, bind, false),
{
    let n: int = (key + bind) * 2;
    let top: int = 0x1_0000_0000_0000_0000;
    let (a, b) = ((n + 2) % top, n % top);
    assert((key + bind + 1) * 2 == n + 2);
    assert((key + bind + 0) * 2 == n);
    assert(a != b) by (nonlinear_arith)
        requires
            top == 0x1_0000_0000_0000_0000,
            a == (n + 2) % top,
            b == n % top,
    {
        vstd::arithmetic::div_mod::lemma_fundamental_div_mod(n + 2, top);
        vstd::arithmetic::div_mod::lemma_fundamental_div_mod(n, top);
    }
    assert(0 <= a < top && 0 <= b < top);
}

} // verus!
