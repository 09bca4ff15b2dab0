//! The statistics by which the search orders its work.
//!
//! Only what is counted is kept here. Amounts that are measured (steps weighted over branches,
//! gains of entropy) are kept beside these by the caller.
use crate::constraint::is_rigid;
use crate::data::{ConstraintView, MetaId};
use crate::ids::{Fault, Ids};
use crate::memory::{Heap, Store};
use crate::search::{AssignmentInfo, DFSResult};
use vstd::prelude::*;

verus! {

/// The hasher of `rustc_hash`.
#[verifier::external_type_specification]
#[verifier::external_body]
pub struct ExFxBuildHasher(rustc_hash::FxBuildHasher);

/// Calls `get` on an `rustc_hash::FxHashMap`: what is stored under `key`.
#[verifier::external_body]
fn lookup<T: Copy>(map: &rustc_hash::FxHashMap<u64, T>, key: u64) -> (r: Option<T>)
    ensures
        r == if map@.contains_key(key) {
            Some(map@[key])
        } else {
            None
        },
{
    map.get(&key).copied()
}

/// Calls `insert` on an `rustc_hash::FxHashMap`: `value` is stored under `key`, in place of what
/// was stored there.
#[verifier::external_body]
fn store_under<T: Copy>(map: &mut rustc_hash::FxHashMap<u64, T>, key: u64, value: T)
    ensures
        final(map)@ == old(map)@.insert(key, value),
{
    map.insert(key, value);
}

/// Calls `iter` on an `rustc_hash::FxHashMap`: every key with what is stored under it, each key
/// once. The order is left open.
#[verifier::external_body]
fn entries<T: Copy>(map: &rustc_hash::FxHashMap<u64, T>) -> (r: Vec<(u64, T)>)
    ensures
        forall|i: int|
            0 <= i < r@.len() ==> map@.contains_key((#[trigger] r@[i]).0) && map@[r@[i].0]
                == r@[i].1,
        forall|i: int, j: int| 0 <= i < j < r@.len() ==> (#[trigger] r@[i]).0 != (#[trigger] r@[j]).0,
        forall|k: u64| #[trigger]
            map@.contains_key(k) ==> exists|i: int| 0 <= i < r@.len() && (#[trigger] r@[i]).0 == k,
{
    map.iter().map(|e| (*e.0, *e.1)).collect()
}

/// Counts that can be added up.
pub trait Tally: Copy {
    /// Nothing counted yet.
    spec fn zero() -> Self;

    /// The sum of two counts.
    spec fn plus(self, other: Self) -> Self;

    /// Whether the sum stays within bounds.
    spec fn addable(self, other: Self) -> bool;

    fn none() -> (r: Self)
        ensures
            r == Self::zero(),
    ;

    fn sum(self, other: Self) -> (r: Self)
        requires
            self.addable(other),
        ensures
            r == self.plus(other),
    ;

    fn can_sum(&self, other: &Self) -> (r: bool)
        ensures
            r == self.addable(*other),
    ;

    proof fn zero_is_neutral(self)
        ensures
            Self::zero().plus(self) == self,
            self.plus(Self::zero()) == self,
            Self::zero().addable(self),
            self.addable(Self::zero()),
    ;

    proof fn plus_commutes(self, other: Self)
        ensures
            self.plus(other) == other.plus(self),
            self.addable(other) == other.addable(self),
    ;

    proof fn plus_associates(self, b: Self, c: Self)
        requires
            self.addable(b),
            self.plus(b).addable(c),
        ensures
            b.addable(c),
            self.addable(b.plus(c)),
            self.plus(b).plus(c) == self.plus(b.plus(c)),
    ;
}

/// Whether a search that has taken `count` steps is to be cancelled.
pub fn over_limit(count: u32, limit: u32) -> (r: bool)
    ensures
        r == (count > limit),
{
    count > limit
}

/// Statistics for a metavariable bin.
#[derive(Debug, Copy, Clone)]
pub struct MetaStats {
    pub completed_count: u32,
    pub attempts: u32,
    pub failures: u32,
}

/// Statistics for an assignment bin.
#[derive(Debug, Copy, Clone)]
pub struct AssignmentStats {
    pub count: u32,
    pub completion_count: u32,
    pub completion_share: u32,
}

/// What is recorded of a metavariable while it is searched.
#[derive(Debug, Copy, Clone)]
pub struct SearchInfo {
    /// Whether a search with this metavariable as the next one came to an end.
    pub dfs_completed: bool,
    /// Whether a search under the present assignment came to an end.
    pub assignment_completed: bool,
    /// Whether candidates were left when the search went back.
    pub unknown: bool,
}

impl SearchInfo {
    /// Nothing recorded.
    pub open spec fn none() -> SearchInfo {
        SearchInfo { dfs_completed: false, assignment_completed: false, unknown: false }
    }

    /// What is recorded in either.
    pub open spec fn plus(self, info: SearchInfo) -> SearchInfo {
        SearchInfo {
            dfs_completed: self.dfs_completed || info.dfs_completed,
            assignment_completed: self.assignment_completed || info.assignment_completed,
            unknown: self.unknown || info.unknown,
        }
    }

    /// The `SearchInfo` of a new metavariable.
    pub fn new() -> (r: SearchInfo)
        ensures
            r == SearchInfo::none(),
    {
        SearchInfo { dfs_completed: false, assignment_completed: false, unknown: false }
    }

    /// Add `info` into `self`.
    pub fn add(&mut self, info: &SearchInfo)
        ensures
            *final(self) == old(self).plus(*info),
    {
        self.dfs_completed = self.dfs_completed || info.dfs_completed;
        self.assignment_completed = self.assignment_completed || info.assignment_completed;
        self.unknown = self.unknown || info.unknown;
    }

    /// Reset statistics related to being the next metavariable.
    pub fn dfs_fence(&mut self)
        ensures
            *final(self) == (SearchInfo {
                dfs_completed: false,
                assignment_completed: false,
                ..*old(self)
            }),
    {
        self.dfs_completed = false;
        self.assignment_completed = false;
    }

    /// Reset statistics related to an assignment.
    pub fn assignment_fence(&mut self)
        ensures
            *final(self) == (SearchInfo { assignment_completed: false, ..*old(self) }),
    {
        self.assignment_completed = false;
    }
}

impl MetaStats {
    /// `MetaStats` with no information.
    pub fn new() -> (r: MetaStats)
        ensures
            r == MetaStats::zero(),
    {
        MetaStats { completed_count: 0, attempts: 0, failures: 0 }
    }

    /// Add `stats` into `self`.
    pub fn add(&mut self, stats: MetaStats)
        requires
            old(self).addable(stats),
        ensures
            *final(self) == old(self).plus(stats),
    {
        self.attempts = self.attempts + stats.attempts;
        self.failures = self.failures + stats.failures;
        self.completed_count = self.completed_count + stats.completed_count;
    }

    /// One attempt, with the `result` of its subtree and the `info` of the metavariable.
    pub open spec fn observed(result: DFSResult, info: SearchInfo) -> MetaStats {
        MetaStats {
            attempts: 1,
            completed_count: if info.dfs_completed {
                1
            } else {
                0
            },
            failures: if result.unknown_count == 0 {
                1
            } else {
                0
            },
        }
    }

    /// Add the `result` from the DFS subtree and the metavariable lifetime `info` to the statistics.
    pub fn accumulate(&mut self, result: &DFSResult, info: &SearchInfo)
        requires
            old(self).addable(MetaStats::observed(*result, *info)),
        ensures
            *final(self) == old(self).plus(MetaStats::observed(*result, *info)),
    {
        self.attempts = self.attempts + 1;
        if info.dfs_completed {
            self.completed_count = self.completed_count + 1;
        }
        if result.unknown_count == 0 {
            self.failures = self.failures + 1;
        }
    }
}

impl AssignmentStats {
    /// `AssignmentStats` with no information.
    pub fn new() -> (r: AssignmentStats)
        ensures
            r == AssignmentStats::zero(),
    {
        AssignmentStats { count: 0, completion_count: 0, completion_share: 0 }
    }

    /// Add `stats` into `self`.
    pub fn add(&mut self, stats: AssignmentStats)
        requires
            old(self).addable(stats),
        ensures
            *final(self) == old(self).plus(stats),
    {
        self.count = self.count + stats.count;
        self.completion_count = self.completion_count + stats.completion_count;
        self.completion_share = self.completion_share + stats.completion_share;
    }

    /// One use of an assignment. A share in the completion counts only where the metavariable
    /// was ever completed.
    pub open spec fn observed(completion_share: bool, ever_completed: bool) -> AssignmentStats {
        AssignmentStats {
            count: 1,
            completion_count: if ever_completed {
                1
            } else {
                0
            },
            completion_share: if ever_completed && completion_share {
                1
            } else {
                0
            },
        }
    }

    /// Add one use of the assignment to the statistics.
    pub fn accumulate(&mut self, completion_share: bool, ever_completed: bool)
        requires
            old(self).addable(AssignmentStats::observed(completion_share, ever_completed)),
        ensures
            *final(self) == old(self).plus(
                AssignmentStats::observed(completion_share, ever_completed),
            ),
    {
        self.count = self.count + 1;
        if ever_completed {
            self.completion_count = self.completion_count + 1;
            if completion_share {
                self.completion_share = self.completion_share + 1;
            }
        }
    }
}

impl Tally for MetaStats {
    open spec fn zero() -> MetaStats {
        MetaStats { completed_count: 0, attempts: 0, failures: 0 }
    }

    open spec fn plus(self, other: MetaStats) -> MetaStats {
        MetaStats {
            completed_count: (self.completed_count + other.completed_count) as u32,
            attempts: (self.attempts + other.attempts) as u32,
            failures: (self.failures + other.failures) as u32,
        }
    }

    open spec fn addable(self, other: MetaStats) -> bool {
        &&& self.completed_count + other.completed_count <= u32::MAX
        &&& self.attempts + other.attempts <= u32::MAX
        &&& self.failures + other.failures <= u32::MAX
    }

    fn none() -> (r: MetaStats) {
        MetaStats::new()
    }

    fn sum(self, other: MetaStats) -> (r: MetaStats) {
        let mut r = self;
        r.add(other);
        r
    }

    fn can_sum(&self, other: &MetaStats) -> (r: bool) {
        self.completed_count <= u32::MAX - other.completed_count && self.attempts <= u32::MAX
            - other.attempts && self.failures <= u32::MAX - other.failures
    }

    proof fn zero_is_neutral(self) {
    }

    proof fn plus_commutes(self, other: MetaStats) {
    }

    proof fn plus_associates(self, b: MetaStats, c: MetaStats) {
    }
}

impl Tally for AssignmentStats {
    open spec fn zero() -> AssignmentStats {
        AssignmentStats { count: 0, completion_count: 0, completion_share: 0 }
    }

    open spec fn plus(self, other: AssignmentStats) -> AssignmentStats {
        AssignmentStats {
            count: (self.count + other.count) as u32,
            completion_count: (self.completion_count + other.completion_count) as u32,
            completion_share: (self.completion_share + other.completion_share) as u32,
        }
    }

    open spec fn addable(self, other: AssignmentStats) -> bool {
        &&& self.count + other.count <= u32::MAX
        &&& self.completion_count + other.completion_count <= u32::MAX
        &&& self.completion_share + other.completion_share <= u32::MAX
    }

    fn none() -> (r: AssignmentStats) {
        AssignmentStats::new()
    }

    fn sum(self, other: AssignmentStats) -> (r: AssignmentStats) {
        let mut r = self;
        r.add(other);
        r
    }

    fn can_sum(&self, other: &AssignmentStats) -> (r: bool) {
        self.count <= u32::MAX - other.count && self.completion_count <= u32::MAX
            - other.completion_count && self.completion_share <= u32::MAX - other.completion_share
    }

    proof fn zero_is_neutral(self) {
    }

    proof fn plus_commutes(self, other: AssignmentStats) {
    }

    proof fn plus_associates(self, b: AssignmentStats, c: AssignmentStats) {
    }
}

/// What is counted in bin `k`.
pub open spec fn tallied<T: Tally>(m: Map<u64, T>, k: u64) -> T {
    if m.contains_key(k) {
        m[k]
    } else {
        T::zero()
    }
}

/// The counts of both maps, bin by bin.
pub open spec fn merged<T: Tally>(a: Map<u64, T>, b: Map<u64, T>) -> Map<u64, T> {
    Map::new(
        |k: u64| a.contains_key(k) || b.contains_key(k),
        |k: u64| tallied(a, k).plus(tallied(b, k)),
    )
}

/// Whether the counts of both maps can be added within bounds.
pub open spec fn mergeable<T: Tally>(a: Map<u64, T>, b: Map<u64, T>) -> bool {
    forall|k: u64| a.contains_key(k) && b.contains_key(k) ==> (#[trigger] a[k]).addable(b[k])
}

/// Whether `data` can be merged into `acc`.
pub fn can_merge<T: Tally>(
    data: &rustc_hash::FxHashMap<u64, T>,
    acc: &rustc_hash::FxHashMap<u64, T>,
) -> (r: bool)
    ensures
        r == mergeable(acc@, data@),
{
    let v = entries(data);
    let mut i: usize = 0;
    while i < v.len()
        invariant
            i <= v@.len(),
            forall|i: int|
                0 <= i < v@.len() ==> data@.contains_key((#[trigger] v@[i]).0) && data@[v@[i].0]
                    == v@[i].1,
            forall|j: int|
                0 <= j < i ==> (acc@.contains_key((#[trigger] v@[j]).0) ==> acc@[v@[j].0].addable(
                    v@[j].1,
                )),
        decreases v@.len() - i,
    {
        match lookup(acc, v[i].0) {
            None => {},
            Some(t) => {
                if !t.can_sum(&v[i].1) {
                    assert(data@.contains_key(v@[i as int].0));
                    return false;
                }
            },
        }
        i = i + 1;
    }
    true
}

/// Adds the counts of `data` to those of `acc`.
fn merge<T: Tally>(
    data: &rustc_hash::FxHashMap<u64, T>,
    acc: &mut rustc_hash::FxHashMap<u64, T>,
)
    requires
        mergeable(old(acc)@, data@),
    ensures
        final(acc)@ == merged(old(acc)@, data@),
{
    let v = entries(data);
    let ghost before = acc@;
    let mut i: usize = 0;
    while i < v.len()
        invariant
            i <= v@.len(),
            mergeable(before, data@),
            forall|i: int|
                0 <= i < v@.len() ==> data@.contains_key((#[trigger] v@[i]).0) && data@[v@[i].0]
                    == v@[i].1,
            forall|i: int, j: int|
                0 <= i < j < v@.len() ==> (#[trigger] v@[i]).0 != (#[trigger] v@[j]).0,
            forall|j: int|
                0 <= j < i ==> acc@.contains_key((#[trigger] v@[j]).0) && acc@[v@[j].0] == tallied(
                    before,
                    v@[j].0,
                ).plus(v@[j].1),
            forall|k: u64| (forall|j: int| 0 <= j < i ==> (#[trigger] v@[j]).0 != k) ==> (
            #[trigger] acc@.contains_key(k) == before.contains_key(k) && (acc@.contains_key(k)
                ==> acc@[k] == before[k])),
        decreases v@.len() - i,
    {
        let key: u64 = v[i].0;
        let t: T = match lookup(acc, key) {
            Some(t) => t,
            None => T::none(),
        };
        proof {
            assert(acc@.contains_key(key) == before.contains_key(key));
            assert(t == tallied(before, key));
            v@[i as int].1.zero_is_neutral();
        }
        let s: T = t.sum(v[i].1);
        store_under(acc, key, s);
        i = i + 1;
    }
    proof {
        assert forall|k: u64|
            acc@.contains_key(k) == merged(before, data@).contains_key(k) && (acc@.contains_key(k)
                ==> acc@[k] == #[trigger] merged(before, data@)[k]) by {
            if data@.contains_key(k) {
                let j = choose|j: int| 0 <= j < v@.len() && (#[trigger] v@[j]).0 == k;
                assert(acc@.contains_key(v@[j].0));
            } else {
                assert(forall|j: int| 0 <= j < v@.len() ==> (#[trigger] v@[j]).0 != k);
                assert(acc@.contains_key(k) == before.contains_key(k));
                if before.contains_key(k) {
                    before[k].zero_is_neutral();
                }
            }
        }
        assert(acc@ =~= merged(before, data@));
    }
}

/// Reduce operation for the maps of metavariable statistics.
pub fn meta_op(
    data: &rustc_hash::FxHashMap<u64, MetaStats>,
    acc: &mut rustc_hash::FxHashMap<u64, MetaStats>,
)
    requires
        mergeable(old(acc)@, data@),
    ensures
        final(acc)@ == merged(old(acc)@, data@),
{
    merge(data, acc)
}

/// Reduce operation for the maps of assignment statistics.
pub fn assignment_op(
    data: &rustc_hash::FxHashMap<u64, AssignmentStats>,
    acc: &mut rustc_hash::FxHashMap<u64, AssignmentStats>,
)
    requires
        mergeable(old(acc)@, data@),
    ensures
        final(acc)@ == merged(old(acc)@, data@),
{
    merge(data, acc)
}

/// The order in which two maps are merged makes no difference.
pub proof fn law_merge_commutes<T: Tally>(a: Map<u64, T>, b: Map<u64, T>)
    ensures
        merged(a, b) == merged(b, a),
        mergeable(a, b) == mergeable(b, a),
{
    assert forall|k: u64| #[trigger] tallied(a, k).plus(tallied(b, k)) == tallied(b, k).plus(
        tallied(a, k),
    ) by {
        tallied(a, k).plus_commutes(tallied(b, k));
    }
    assert(merged(a, b) =~= merged(b, a));
    assert forall|k: u64|
        a.contains_key(k) && b.contains_key(k) implies #[trigger] a[k].addable(b[k]) == b[k].addable(
        a[k],
    ) by {
        a[k].plus_commutes(b[k]);
    }
    if mergeable(a, b) {
        assert forall|k: u64| b.contains_key(k) && a.contains_key(k) implies (
        #[trigger] b[k]).addable(a[k]) by {
            assert(a[k].addable(b[k]));
        }
    }
    if mergeable(b, a) {
        assert forall|k: u64| a.contains_key(k) && b.contains_key(k) implies (
        #[trigger] a[k]).addable(b[k]) by {
            assert(b[k].addable(a[k]));
        }
    }
}

/// How three maps are grouped in merging them makes no difference.
pub proof fn law_merge_associates<T: Tally>(a: Map<u64, T>, b: Map<u64, T>, c: Map<u64, T>)
    requires
        mergeable(a, b),
        mergeable(merged(a, b), c),
    ensures
        merged(merged(a, b), c) == merged(a, merged(b, c)),
{
    assert forall|k: u64|
        (a.contains_key(k) || b.contains_key(k) || c.contains_key(k)) implies merged(
        merged(a, b),
        c,
    )[k] == #[trigger] merged(a, merged(b, c))[k] by {
        let (x, y, z) = (tallied(a, k), tallied(b, k), tallied(c, k));
        x.zero_is_neutral();
        y.zero_is_neutral();
        z.zero_is_neutral();
        x.plus(y).zero_is_neutral();
        if a.contains_key(k) && b.contains_key(k) {
            assert(a[k].addable(b[k]));
        }
        if (a.contains_key(k) || b.contains_key(k)) && c.contains_key(k) {
            assert(merged(a, b)[k].addable(c[k]));
        }
        assert(x.addable(y));
        assert(x.plus(y).addable(z));
        x.plus_associates(y, z);
        T::zero().zero_is_neutral();
        assert(tallied(merged(a, b), k) == x.plus(y));
        assert(tallied(merged(b, c), k) == y.plus(z));
    }
    assert(merged(merged(a, b), c) =~= merged(a, merged(b, c)));
}

/// The information that may be used to select the next metavariable to refine.
#[derive(Debug, Copy, Clone)]
pub struct MetaInfo {
    pub meta: MetaId,
    pub has_rigid_equation: bool,
    /// The bin of the statistics that this metavariable belongs to.
    pub bin: u64,
    /// The `MetaStats` for `bin`.
    pub current_stats: MetaStats,
    /// The sum of `stats` for all possible future bins of this metavariable.
    pub future_stats: MetaStats,
}

/// Whether one of the constraints, from the `k`th on, is rigid. Also gives the next identifier.
pub open spec fn any_rigid(
    h: Heap,
    cs: Seq<ConstraintView>,
    k: nat,
    next: u64,
    fuel: nat,
) -> Result<(bool, u64), Fault>
    decreases cs.len() - k,
{
    if k >= cs.len() {
        Ok((false, next))
    } else {
        match is_rigid(h, cs[k as int], next, fuel) {
            Err(f) => Err(f),
            Ok((true, n)) => Ok((true, n)),
            Ok((false, n)) => any_rigid(h, cs, k + 1, n, fuel),
        }
    }
}

/// The statistics of a metavariable whose type has the given key.
pub open spec fn info_from(
    meta: MetaId,
    key: u64,
    rigid: bool,
    stats: Map<u64, MetaStats>,
) -> Result<MetaInfo, Fault> {
    if key == u64::MAX {
        Err(Fault::Exhausted)
    } else {
        let bin = if rigid {
            (key + 1) as u64
        } else {
            key
        };
        let current = tallied(stats, bin);
        let future = if rigid {
            MetaStats::zero()
        } else {
            tallied(stats, (key + 1) as u64)
        };
        if future.addable(current) {
            Ok(
                MetaInfo {
                    meta,
                    has_rigid_equation: rigid,
                    bin,
                    current_stats: current,
                    future_stats: future.plus(current),
                },
            )
        } else {
            Err(Fault::Exhausted)
        }
    }
}

/// The information on the metavariable `m`. Also gives the next identifier.
pub open spec fn meta_info(
    h: Heap,
    m: MetaId,
    stats: Map<u64, MetaStats>,
    fuel: nat,
    next: u64,
) -> Result<(MetaInfo, u64), Fault> {
    match h.metas[m as int].typ {
        None => Err(Fault::Malformed),
        Some(t) => match any_rigid(h, h.metas[m as int].constraints, 0, next, fuel) {
            Err(f) => Err(f),
            Ok((rigid, n)) => match info_from(m, t.base.key, rigid, stats) {
                Err(f) => Err(f),
                Ok(info) => Ok((info, n)),
            },
        },
    }
}

/// The statistics of a bin, none where there are none yet.
fn tally<T: Tally>(map: &rustc_hash::FxHashMap<u64, T>, bin: u64) -> (r: T)
    ensures
        r == tallied(map@, bin),
{
    match lookup(map, bin) {
        Some(t) => t,
        None => T::none(),
    }
}

impl MetaInfo {
    /// Collect the information of a metavariable.
    pub fn new(
        store: &Store,
        meta: MetaId,
        stats: &rustc_hash::FxHashMap<u64, MetaStats>,
        fuel: usize,
        ids: &mut Ids,
    ) -> (r: Result<MetaInfo, Fault>)
        requires
            meta < store@.metas.len(),
        ensures
            match r {
                Ok(info) => meta_info(store@, meta, stats@, fuel as nat, old(ids).next) == Ok::<
                    (MetaInfo, u64),
                    Fault,
                >((info, final(ids).next)),
                Err(f) => meta_info(store@, meta, stats@, fuel as nat, old(ids).next) == Err::<
                    (MetaInfo, u64),
                    Fault,
                >(f),
            },
    {
        let m = store.meta(meta);
        let key: u64 = match &m.typ {
            None => {
                return Err(Fault::Malformed);
            },
            Some(t) => t.0.key,
        };
        let mut has_rigid_equation = false;
        let mut k: usize = 0;
        while !has_rigid_equation && k < m.constraints.len()
            invariant
                k <= m.constraints@.len(),
                m@ == store@.metas[meta as int],
                m@.typ is Some,
                if has_rigid_equation {
                    any_rigid(store@, m@.constraints, 0, old(ids).next, fuel as nat) == Ok::<
                        (bool, u64),
                        Fault,
                    >((true, ids.next))
                } else {
                    any_rigid(store@, m@.constraints, 0, old(ids).next, fuel as nat) == any_rigid(
                        store@,
                        m@.constraints,
                        k as nat,
                        ids.next,
                        fuel as nat,
                    )
                },
            decreases m.constraints@.len() - k,
        {
            match m.constraints[k].rigid(store, fuel, ids) {
                Err(f) => {
                    return Err(f);
                },
                Ok(b) => {
                    has_rigid_equation = b;
                },
            }
            k = k + 1;
        }
        if key == u64::MAX {
            return Err(Fault::Exhausted);
        }
        let bin: u64 = if has_rigid_equation {
            key + 1
        } else {
            key
        };
        let current_stats: MetaStats = tally(stats, bin);
        let mut future_stats: MetaStats = if has_rigid_equation {
            MetaStats::new()
        } else {
            tally(stats, key + 1)
        };
        if !future_stats.can_sum(&current_stats) {
            return Err(Fault::Exhausted);
        }
        future_stats.add(current_stats);
        Ok(MetaInfo { meta, has_rigid_equation, bin, current_stats, future_stats })
    }

    /// Adds new statistics information to the original `bin` of this metavariable.
    pub fn log(
        &self,
        map: &mut rustc_hash::FxHashMap<u64, MetaStats>,
        result: &DFSResult,
        info: &SearchInfo,
    )
        requires
            tallied(old(map)@, self.bin).addable(MetaStats::observed(*result, *info)),
        ensures
            final(map)@ == old(map)@.insert(
                self.bin,
                tallied(old(map)@, self.bin).plus(MetaStats::observed(*result, *info)),
            ),
    {
        let mut s: MetaStats = tally(map, self.bin);
        s.accumulate(result, info);
        store_under(map, self.bin, s);
    }
}

impl AssignmentInfo {
    /// The statistics of this assignment.
    pub fn stats(&self, map: &rustc_hash::FxHashMap<u64, AssignmentStats>) -> (r: AssignmentStats)
        ensures
            r == tallied(map@, self.bin),
    {
        tally(map, self.bin)
    }

    /// Adds new statistics information to the original `bin` of this assignment.
    pub fn log(
        &self,
        map: &mut rustc_hash::FxHashMap<u64, AssignmentStats>,
        completion_share: bool,
        ever_completed: bool,
    )
        requires
            tallied(old(map)@, self.bin).addable(
                AssignmentStats::observed(completion_share, ever_completed),
            ),
        ensures
            final(map)@ == old(map)@.insert(
                self.bin,
                tallied(old(map)@, self.bin).plus(
                    AssignmentStats::observed(completion_share, ever_completed),
                ),
            ),
    {
        let mut s: AssignmentStats = tally(map, self.bin);
        s.accumulate(completion_share, ever_completed);
        store_under(map, self.bin, s);
    }
}

} // verus!
