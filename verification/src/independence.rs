//! Splitting the open metavariables into components that do not interact.
use crate::constraint::{constraint_fits, constraint_involved};
use crate::data::{ConstraintView, MetaId};
use crate::es::{context_fits, context_involved, fits, gathered};
use crate::ids::{Fault, Ids};
use crate::memory::{Heap, Store};
use crate::stats::{meta_info, MetaInfo, MetaStats};
use crate::term::args_of;
use std::collections::HashMap;
use union_find::{QuickUnionUf, UnionBySize, UnionFind};
use vstd::prelude::*;

verus! {

broadcast use vstd::std_specs::hash::group_hash_axioms;

/// The disjoint sets of `union_find`.
#[verifier::external_type_specification]
#[verifier::external_body]
#[verifier::reject_recursive_types(V)]
pub struct ExQuickUnionUf<V>(QuickUnionUf<V>);

/// The weight by which `union_find` keeps its trees flat.
#[verifier::external_type_specification]
#[verifier::external_body]
pub struct ExUnionBySize(UnionBySize);

/// The identifier of the set that each key belongs to.
pub uninterp spec fn set_ids(uf: QuickUnionUf<UnionBySize>) -> Seq<usize>;

/// Calls `UnionFind::new`: each of the keys below `len` is in a set of its own, which it
/// identifies.
#[verifier::external_body]
fn singletons(len: usize) -> (r: QuickUnionUf<UnionBySize>)
    ensures
        set_ids(r) == Seq::new(len as nat, |i: int| i as usize),
{
    QuickUnionUf::<UnionBySize>::new(len)
}

/// Calls `UnionFind::union`: the sets of `a` and `b` become one, which keeps one of the two
/// identifiers. Which of them is left open. No other set changes.
#[verifier::external_body]
fn join(uf: &mut QuickUnionUf<UnionBySize>, a: usize, b: usize)
    requires
        a < set_ids(*old(uf)).len(),
        b < set_ids(*old(uf)).len(),
    ensures
        joins(set_ids(*old(uf)), set_ids(*final(uf)), a as int, b as int),
{
    uf.union(a, b);
}

/// Calls `UnionFind::find`: the identifier of the set that `a` belongs to. The sets are
/// unchanged.
#[verifier::external_body]
fn find(uf: &mut QuickUnionUf<UnionBySize>, a: usize) -> (r: usize)
    requires
        a < set_ids(*old(uf)).len(),
    ensures
        r == set_ids(*old(uf))[a as int],
        set_ids(*final(uf)) == set_ids(*old(uf)),
{
    uf.find(a)
}

/// Whether `after` is `before` with the sets of `a` and `b` made one, under one of their
/// identifiers.
pub open spec fn joins(before: Seq<usize>, after: Seq<usize>, a: int, b: int) -> bool {
    &&& after.len() == before.len()
    &&& after[a] == before[a] || after[a] == before[b]
    &&& forall|i: int|
        0 <= i < before.len() ==> #[trigger] after[i] == if before[i] == before[a] || before[i]
            == before[b] {
            after[a]
        } else {
            before[i]
        }
}

/// A metavariable of a component, and whether it may be chosen next.
#[derive(Debug, Copy, Clone)]
pub struct NextInfo {
    pub meta: MetaId,
    pub eligible: bool,
}

/// The metavariables that the first `k` constraints involve.
pub open spec fn constraints_involved(cs: Seq<ConstraintView>, k: int) -> Seq<MetaId>
    decreases k,
{
    if k <= 0 {
        Seq::empty()
    } else {
        constraints_involved(cs, k - 1) + constraint_involved(cs[k - 1])
    }
}

/// The metavariables that the type of `m` involves.
pub open spec fn type_involved(h: Heap, m: MetaId) -> Seq<MetaId> {
    let t = h.metas[m as int].typ->0;
    gathered(t.es, t.base.codomain_mvars@, t.es.len() as int)
}

/// Each of `ms`, with a flag.
pub open spec fn flagged(ms: Seq<MetaId>, flag: bool) -> Seq<(MetaId, bool)> {
    ms.map_values(|m: MetaId| (m, flag))
}

/// The metavariables whose assignments might interact with `m`, each with whether it occurs in
/// the codomain of the type of `m`.
pub open spec fn involved(h: Heap, m: MetaId) -> Seq<(MetaId, bool)> {
    let meta = h.metas[m as int];
    flagged(
        context_involved(meta.gamma, meta.gamma.len() as int) + constraints_involved(
            meta.constraints,
            meta.constraints.len() as int,
        ),
        false,
    ) + flagged(type_involved(h, m), true)
}

/// Whether the lookups that `involved` makes can be made.
pub open spec fn involvable(h: Heap, m: MetaId) -> bool {
    &&& m < h.metas.len()
    &&& h.metas[m as int].typ matches Some(t) && fits(t.es, t.base.codomain_mvars@)
    &&& context_fits(h.metas[m as int].gamma)
    &&& forall|k: int|
        0 <= k < h.metas[m as int].constraints.len() ==> constraint_fits(
            #[trigger] h.metas[m as int].constraints[k],
        )
}

/// Adds each of `ms`, with the flag.
fn extend_flagged(out: &mut Vec<(MetaId, bool)>, ms: &Vec<MetaId>, flag: bool)
    ensures
        final(out)@ == old(out)@ + flagged(ms@, flag),
{
    let mut i: usize = 0;
    while i < ms.len()
        invariant
            i <= ms@.len(),
            out@ == old(out)@ + flagged(ms@.take(i as int), flag),
        decreases ms@.len() - i,
    {
        out.push((ms[i], flag));
        i = i + 1;
        assert(ms@.take(i as int) =~= ms@.take(i - 1).push(ms@[i - 1]));
        assert(flagged(ms@.take(i as int), flag) =~= flagged(ms@.take(i - 1), flag).push(
            (ms@[i - 1], flag),
        ));
    }
    assert(ms@.take(i as int) =~= ms@);
}

/// Whether `involved_with` can be computed.
pub fn can_involve(store: &Store, mvar: MetaId) -> (r: bool)
    ensures
        r == involvable(store@, mvar),
{
    if !store.has_meta(mvar) {
        return false;
    }
    let m = store.meta(mvar);
    match &m.typ {
        None => {
            return false;
        },
        Some(t) => {
            if !t.1.can_get_many(&t.0.codomain_mvars) {
                return false;
            }
        },
    }
    if !m.gamma.can_involve() {
        return false;
    }
    let mut k: usize = 0;
    while k < m.constraints.len()
        invariant
            k <= m.constraints@.len(),
            mvar < store@.metas.len(),
            m@ == store@.metas[mvar as int],
            forall|j: int| 0 <= j < k ==> constraint_fits(#[trigger] m@.constraints[j]),
        decreases m.constraints@.len() - k,
    {
        if !m.constraints[k].can_involve() {
            assert(!constraint_fits(m@.constraints[k as int]));
            return false;
        }
        k = k + 1;
    }
    true
}

/// The metavariables whose assignments might interact with `mvar`.
pub fn involved_with(store: &Store, mvar: MetaId) -> (r: Vec<(MetaId, bool)>)
    requires
        involvable(store@, mvar),
    ensures
        r@ == involved(store@, mvar),
{
    let m = store.meta(mvar);
    let mut constraints: Vec<MetaId> = m.gamma.involved();
    let ghost context = constraints@;
    let mut k: usize = 0;
    while k < m.constraints.len()
        invariant
            k <= m.constraints@.len(),
            m@ == store@.metas[mvar as int],
            involvable(store@, mvar),
            constraints@ == context + constraints_involved(m@.constraints, k as int),
        decreases m.constraints@.len() - k,
    {
        assert(constraint_fits(m@.constraints[k as int]));
        let mut more: Vec<MetaId> = m.constraints[k].involved();
        constraints.append(&mut more);
        k = k + 1;
    }
    let mut result: Vec<(MetaId, bool)> = Vec::new();
    extend_flagged(&mut result, &constraints, false);
    if let Some(t) = &m.typ {
        let codomain: Vec<MetaId> = t.1.get_many(&t.0.codomain_mvars);
        extend_flagged(&mut result, &codomain, true);
    }
    result
}

/// The unassigned metavariables in the term of `m`, from left to right.
pub open spec fn leaves(h: Heap, m: MetaId) -> Seq<MetaId>
    decreases h.metas.len() - m, 1nat, 0nat,
{
    if h.assigned(m) {
        args_leaves(h, m, args_of(h, m).len())
    } else {
        seq![m]
    }
}

/// The unassigned metavariables in the first `k` arguments of `m`.
pub open spec fn args_leaves(h: Heap, m: MetaId, k: nat) -> Seq<MetaId>
    decreases h.metas.len() - m, 0nat, k,
{
    if k == 0 || k > args_of(h, m).len() {
        Seq::empty()
    } else {
        let arg = args_of(h, m)[k - 1];
        args_leaves(h, m, (k - 1) as nat) + if m < arg < h.metas.len() {
            leaves(h, arg)
        } else {
            Seq::empty()
        }
    }
}

/// Collect the unassigned metavariables in the subtree
pub fn collect_unassigned(store: &Store, meta: MetaId, out: &mut Vec<MetaId>)
    requires
        store@.ordered(),
        meta < store@.metas.len(),
    ensures
        final(out)@ == old(out)@ + leaves(store@, meta),
    decreases store@.metas.len() - meta,
{
    match &store.meta(meta).assignment {
        None => out.push(meta),
        Some(a) => {
            let ghost h = store@;
            let mut i: usize = 0;
            while i < a.args.len()
                invariant
                    i <= a.args@.len(),
                    h == store@,
                    h.ordered(),
                    h.assigned(meta),
                    a.args@ == args_of(h, meta),
                    out@ == old(out)@ + args_leaves(h, meta, i as nat),
                decreases a.args@.len() - i,
            {
                assert(h.metas[meta as int].assignment->0.args[i as int] == a.args@[i as int]);
                collect_unassigned(store, a.args[i], out);
                i = i + 1;
            }
        },
    }
}

/// The hits on `target` among the first `k` of `inv`, each as the position `i` and the flag.
pub open spec fn hits(
    inv: Seq<(MetaId, bool)>,
    k: int,
    i: int,
    target: MetaId,
) -> Seq<(usize, bool)>
    decreases k,
{
    if k <= 0 {
        Seq::empty()
    } else if inv[k - 1].0 == target {
        hits(inv, k - 1, i, target).push((i as usize, inv[k - 1].1))
    } else {
        hits(inv, k - 1, i, target)
    }
}

/// Which of the first `n` of `unassigned` involve `target`, each with the flag.
pub open spec fn mentions(h: Heap, unassigned: Seq<MetaId>, n: int, target: MetaId) -> Seq<
    (usize, bool),
>
    decreases n,
{
    if n <= 0 {
        Seq::empty()
    } else {
        let inv = involved(h, unassigned[n - 1]);
        mentions(h, unassigned, n - 1, target) + hits(inv, inv.len() as int, n - 1, target)
    }
}

/// Whether the map lists under each target what `f` gives, and nothing else.
pub open spec fn lists(
    map: Map<usize, Vec<(usize, bool)>>,
    f: spec_fn(MetaId) -> Seq<(usize, bool)>,
) -> bool {
    forall|t: MetaId|
        map.contains_key(t) == ((#[trigger] f(t)).len() > 0) && (map.contains_key(t) ==> map[t]@
            == f(t))
}

/// For each metavariable, the positions of those of `unassigned` that involve it.
pub fn involved_inverse(store: &Store, unassigned: &Vec<MetaId>) -> (r: HashMap<
    usize,
    Vec<(usize, bool)>,
>)
    requires
        forall|i: int| 0 <= i < unassigned@.len() ==> involvable(store@, #[trigger] unassigned@[i]),
    ensures
        lists(r@, |t: MetaId| mentions(store@, unassigned@, unassigned@.len() as int, t)),
{
    let mut result: HashMap<usize, Vec<(usize, bool)>> = HashMap::new();
    let mut i: usize = 0;
    while i < unassigned.len()
        invariant
            i <= unassigned@.len(),
            forall|i: int|
                0 <= i < unassigned@.len() ==> involvable(store@, #[trigger] unassigned@[i]),
            lists(result@, |t: MetaId| mentions(store@, unassigned@, i as int, t)),
        decreases unassigned@.len() - i,
    {
        let inv: Vec<(MetaId, bool)> = involved_with(store, unassigned[i]);
        let mut k: usize = 0;
        proof {
            let f = |t: MetaId| mentions(store@, unassigned@, i as int, t);
            let g = |t: MetaId|
                mentions(store@, unassigned@, i as int, t) + hits(inv@, 0, i as int, t);
            assert forall|t: MetaId|
                result@.contains_key(t) == ((#[trigger] g(t)).len() > 0) && (result@.contains_key(t)
                    ==> result@[t]@ == g(t)) by {
                assert(g(t) =~= f(t));
            }
        }
        while k < inv.len()
            invariant
                k <= inv@.len(),
                i < unassigned@.len(),
                lists(
                    result@,
                    |t: MetaId|
                        mentions(store@, unassigned@, i as int, t) + hits(
                            inv@,
                            k as int,
                            i as int,
                            t,
                        ),
                ),
            decreases inv@.len() - k,
        {
            let target: MetaId = inv[k].0;
            let ghost before = result@;
            let ghost f = |t: MetaId|
                mentions(store@, unassigned@, i as int, t) + hits(inv@, k as int, i as int, t);
            let ghost g = |t: MetaId|
                mentions(store@, unassigned@, i as int, t) + hits(inv@, k + 1, i as int, t);
            let mut row: Vec<(usize, bool)> = match result.remove(&target) {
                Some(row) => row,
                None => Vec::new(),
            };
            proof {
                assert(before.contains_key(target) == (f(target).len() > 0));
                assert(row@ =~= f(target));
            }
            row.push((i, inv[k].1));
            result.insert(target, row);
            assert forall|t: MetaId|
                result@.contains_key(t) == ((#[trigger] g(t)).len() > 0) && (result@.contains_key(t)
                    ==> result@[t]@ == g(t)) by {
                assert(before.contains_key(t) == (f(t).len() > 0));
                if t == target {
                    assert(g(t) =~= f(t).push((i, inv@[k as int].1)));
                } else {
                    assert(g(t) == f(t));
                }
            }
            k = k + 1;
        }
        proof {
            let f = |t: MetaId|
                mentions(store@, unassigned@, i as int, t) + hits(inv@, k as int, i as int, t);
            let g = |t: MetaId| mentions(store@, unassigned@, i + 1, t);
            assert forall|t: MetaId|
                result@.contains_key(t) == ((#[trigger] g(t)).len() > 0) && (result@.contains_key(t)
                    ==> result@[t]@ == g(t)) by {
                assert(g(t) == f(t));
            }
        }
        i = i + 1;
    }
    result
}

/// `m` and the metavariables above it, from `m` upwards.
pub open spec fn lineage(h: Heap, m: MetaId) -> Seq<MetaId>
    decreases m,
{
    match h.metas[m as int].parent {
        Some(p) => if p < m {
            seq![m] + lineage(h, p)
        } else {
            seq![m]
        },
        None => seq![m],
    }
}

/// Whether the metavariables above `m` all come before the ones that they are above of.
pub open spec fn rooted(h: Heap, m: MetaId) -> bool
    decreases m,
{
    &&& m < h.metas.len()
    &&& h.metas[m as int].parent matches Some(p) ==> p < m && rooted(h, p)
}

/// Which positions involve which metavariables, with the flag, according to `inverse`.
pub open spec fn listed(inverse: Map<usize, Vec<(usize, bool)>>) -> Set<(MetaId, int, bool)> {
    Set::new(
        |t: (MetaId, int, bool)|
            inverse.contains_key(t.0) && 0 <= t.1 <= usize::MAX && inverse[t.0]@.contains(
                (t.1 as usize, t.2),
            ),
    )
}

/// Which of `unassigned` involve which metavariables, with the flag.
pub open spec fn involvement(h: Heap, unassigned: Seq<MetaId>) -> Set<(MetaId, int, bool)> {
    Set::new(
        |t: (MetaId, int, bool)|
            0 <= t.1 < unassigned.len() && involved(h, unassigned[t.1]).contains((t.0, t.2)),
    )
}

/// Whether `inverse` lists positions below `n` only.
pub open spec fn lists_below(inverse: Map<usize, Vec<(usize, bool)>>, n: nat) -> bool {
    forall|t: usize, j: int|
        #![trigger inverse[t]@[j]]
        inverse.contains_key(t) && 0 <= j < inverse[t]@.len() ==> inverse[t]@[j].0 < n
}

/// Whether the assignment of the `i`th of `unassigned`, or of a metavariable above it, might
/// interact with the `o`th, where `w` tells which positions involve which metavariables.
pub open spec fn linked(
    h: Heap,
    unassigned: Seq<MetaId>,
    w: Set<(MetaId, int, bool)>,
    i: int,
    o: int,
) -> bool {
    exists|p: MetaId, c: bool|
        lineage(h, unassigned[i]).contains(p) && #[trigger] w.contains((p, o, c))
}

/// Whether the `i`th of `unassigned`, or a metavariable above it, occurs in the codomain of the
/// type of one of them: `w` tells so by the flag.
pub open spec fn blocked(
    h: Heap,
    unassigned: Seq<MetaId>,
    w: Set<(MetaId, int, bool)>,
    i: int,
) -> bool {
    exists|p: MetaId, o: int|
        lineage(h, unassigned[i]).contains(p) && #[trigger] w.contains((p, o, true))
}

/// Whether the labels `f` are the same wherever two of `unassigned` are linked.
pub open spec fn respects(
    h: Heap,
    unassigned: Seq<MetaId>,
    w: Set<(MetaId, int, bool)>,
    f: spec_fn(int) -> int,
) -> bool {
    forall|i: int, o: int|
        0 <= i < unassigned.len() && 0 <= o < unassigned.len() && #[trigger] linked(
            h,
            unassigned,
            w,
            i,
            o,
        ) ==> f(i) == f(o)
}

/// Whether the `i`th and the `j`th of `unassigned` are connected by links: no labels that are the
/// same across every link tell them apart.
pub open spec fn inseparable(
    h: Heap,
    unassigned: Seq<MetaId>,
    w: Set<(MetaId, int, bool)>,
    i: int,
    j: int,
) -> bool {
    forall|f: spec_fn(int) -> int| #[trigger] respects(h, unassigned, w, f) ==> f(i) == f(j)
}

/// The positions of the first `k` of `unassigned`, in buckets: a bucket holds what is
/// inseparable, in order, and the buckets are in the order of their first positions.
pub open spec fn grouping(
    h: Heap,
    unassigned: Seq<MetaId>,
    w: Set<(MetaId, int, bool)>,
    k: int,
) -> Seq<Seq<int>>
    decreases k,
{
    if k <= 0 {
        Seq::empty()
    } else {
        let g = grouping(h, unassigned, w, k - 1);
        match bucket_for(h, unassigned, w, g, k - 1) {
            Some(b) => g.update(b, g[b].push(k - 1)),
            None => g.push(seq![k - 1]),
        }
    }
}

/// The bucket that position `i` belongs to, if there is one.
pub open spec fn bucket_for(
    h: Heap,
    unassigned: Seq<MetaId>,
    w: Set<(MetaId, int, bool)>,
    g: Seq<Seq<int>>,
    i: int,
) -> Option<int> {
    if exists|b: int| is_bucket_for(h, unassigned, w, g, i, b) {
        Some(choose|b: int| is_bucket_for(h, unassigned, w, g, i, b))
    } else {
        None
    }
}

/// Whether position `i` belongs to bucket `b`.
pub open spec fn is_bucket_for(
    h: Heap,
    unassigned: Seq<MetaId>,
    w: Set<(MetaId, int, bool)>,
    g: Seq<Seq<int>>,
    i: int,
    b: int,
) -> bool {
    0 <= b < g.len() && inseparable(h, unassigned, w, g[b][0], i)
}

/// Whether `unassigned` can be split.
pub open spec fn separable(h: Heap, unassigned: Seq<MetaId>) -> bool {
    forall|i: int|
        0 <= i < unassigned.len() ==> involvable(h, #[trigger] unassigned[i]) && rooted(
            h,
            unassigned[i],
        )
}

/// Whether the metavariables above those of `unassigned` come before the ones that they are above
/// of.
pub open spec fn all_rooted(h: Heap, unassigned: Seq<MetaId>) -> bool {
    forall|i: int| 0 <= i < unassigned.len() ==> rooted(h, #[trigger] unassigned[i])
}

/// What is known of the metavariable at position `i`.
pub open spec fn next_info(
    h: Heap,
    unassigned: Seq<MetaId>,
    w: Set<(MetaId, int, bool)>,
    i: int,
) -> NextInfo {
    NextInfo { meta: unassigned[i], eligible: !blocked(h, unassigned, w, i) }
}

/// Whether `buckets` holds the metavariables of the grouping `g`.
pub open spec fn fills(
    h: Heap,
    unassigned: Seq<MetaId>,
    w: Set<(MetaId, int, bool)>,
    g: Seq<Seq<int>>,
    buckets: Seq<Vec<NextInfo>>,
) -> bool {
    &&& buckets.len() == g.len()
    &&& forall|b: int| 0 <= b < g.len() ==> (#[trigger] buckets[b])@.len() == g[b].len()
    &&& forall|b: int, k: int|
        0 <= b < g.len() && 0 <= k < g[b].len() ==> #[trigger] buckets[b]@[k] == next_info(
            h,
            unassigned,
            w,
            g[b][k],
        )
}

proof fn lemma_hits(inv: Seq<(MetaId, bool)>, k: int, i: int, target: MetaId)
    requires
        0 <= k <= inv.len(),
        0 <= i <= usize::MAX,
    ensures
        forall|j: int|
            0 <= j < hits(inv, k, i, target).len() ==> {
                let e = #[trigger] hits(inv, k, i, target)[j];
                e.0 == i && inv.contains((target, e.1))
            },
        forall|j: int|
            0 <= j < k && (#[trigger] inv[j]).0 == target ==> hits(inv, k, i, target).contains(
                (i as usize, inv[j].1),
            ),
    decreases k,
{
    if k > 0 {
        lemma_hits(inv, k - 1, i, target);
        let s = hits(inv, k - 1, i, target);
        assert(inv[k - 1] == (inv[k - 1].0, inv[k - 1].1));
        if inv[k - 1].0 == target {
            let e = (i as usize, inv[k - 1].1);
            assert(s.push(e)[s.len() as int] == e);
            assert forall|j: int| 0 <= j < k && (#[trigger] inv[j]).0 == target implies s.push(
                e,
            ).contains((i as usize, inv[j].1)) by {
                if j < k - 1 {
                    let x = (i as usize, inv[j].1);
                    let at = choose|at: int| 0 <= at < s.len() && s[at] == x;
                    assert(s.push(e)[at] == x);
                }
            }
        }
    }
}

proof fn lemma_mentions(h: Heap, unassigned: Seq<MetaId>, n: int, target: MetaId)
    requires
        0 <= n <= unassigned.len() <= usize::MAX,
    ensures
        forall|j: int|
            0 <= j < mentions(h, unassigned, n, target).len() ==> {
                let e = #[trigger] mentions(h, unassigned, n, target)[j];
                e.0 < n && involved(h, unassigned[e.0 as int]).contains((target, e.1))
            },
        forall|o: int, c: bool|
            0 <= o < n && #[trigger] involved(h, unassigned[o]).contains((target, c)) ==> mentions(
                h,
                unassigned,
                n,
                target,
            ).contains((o as usize, c)),
    decreases n,
{
    if n > 0 {
        lemma_mentions(h, unassigned, n - 1, target);
        let inv = involved(h, unassigned[n - 1]);
        lemma_hits(inv, inv.len() as int, n - 1, target);
        let s = mentions(h, unassigned, n - 1, target);
        let t = hits(inv, inv.len() as int, n - 1, target);
        assert forall|j: int| 0 <= j < (s + t).len() implies ({
            let e = #[trigger] (s + t)[j];
            e.0 < n && involved(h, unassigned[e.0 as int]).contains((target, e.1))
        }) by {
            if j < s.len() {
                assert((s + t)[j] == s[j]);
            } else {
                assert((s + t)[j] == t[j - s.len()]);
            }
        }
        assert forall|o: int, c: bool|
            0 <= o < n && #[trigger] involved(h, unassigned[o]).contains((target, c)) implies (s
            + t).contains((o as usize, c)) by {
            let e = (o as usize, c);
            if o < n - 1 {
                let at = choose|at: int| 0 <= at < s.len() && s[at] == e;
                assert((s + t)[at] == e);
            } else {
                let j = choose|j: int| 0 <= j < inv.len() && inv[j] == (target, c);
                assert(inv[j].0 == target);
                let at = choose|at: int| 0 <= at < t.len() && t[at] == e;
                assert((s + t)[s.len() + at] == e);
            }
        }
    }
}

/// Whether `ids` gives each of `n` keys the identifier of a set.
spec fn within(ids: Seq<usize>, n: nat) -> bool {
    ids.len() == n && forall|x: int| 0 <= x < n ==> (#[trigger] ids[x]) < n
}

/// Whether each of `unassigned` is inseparable from the identifier of its set.
spec fn sound(
    h: Heap,
    unassigned: Seq<MetaId>,
    w: Set<(MetaId, int, bool)>,
    ids: Seq<usize>,
) -> bool {
    forall|f: spec_fn(int) -> int, x: int| #[trigger]
        respects(h, unassigned, w, f) && 0 <= x < ids.len() ==> f(x) == f(
            (#[trigger] ids[x]) as int,
        )
}

/// Whether keys that are in one set stay in one set.
spec fn keeps_sets(before: Seq<usize>, after: Seq<usize>) -> bool {
    &&& before.len() == after.len()
    &&& forall|x: int, y: int|
        0 <= x < before.len() && 0 <= y < before.len() && before[x] == before[y]
            ==> #[trigger] after[x] == #[trigger] after[y]
}

/// Joins position `i` with every position that is listed under `p`, and tells whether one is listed
/// with the flag.
fn unite(
    store: &Store,
    unassigned: &Vec<MetaId>,
    inverse: &HashMap<usize, Vec<(usize, bool)>>,
    uf: &mut QuickUnionUf<UnionBySize>,
    i: usize,
    p: MetaId,
) -> (r: bool)
    requires
        lists_below(inverse@, unassigned@.len()),
        i < unassigned@.len(),
        lineage(store@, unassigned@[i as int]).contains(p),
        within(set_ids(*old(uf)), unassigned@.len()),
        sound(store@, unassigned@, listed(inverse@), set_ids(*old(uf))),
    ensures
        within(set_ids(*final(uf)), unassigned@.len()),
        sound(store@, unassigned@, listed(inverse@), set_ids(*final(uf))),
        keeps_sets(set_ids(*old(uf)), set_ids(*final(uf))),
        forall|o: int, c: bool|
            0 <= o < unassigned@.len() && #[trigger] listed(inverse@).contains((p, o, c))
                ==> set_ids(*final(uf))[i as int] == set_ids(*final(uf))[o],
        r == exists|o: int|
            0 <= o < unassigned@.len() && #[trigger] listed(inverse@).contains((p, o, true)),
{
    let ghost w = listed(inverse@);
    let ghost n = unassigned@.len();
    match inverse.get(&p) {
        None => {
            assert(!inverse@.contains_key(p));
            false
        },
        Some(arr) => {
            assert(arr@ == inverse@[p]@);
            assert forall|j: int| 0 <= j < arr@.len() implies ({
                let e = #[trigger] arr@[j];
                e.0 < n && w.contains((p, e.0 as int, e.1))
            }) by {
                assert(inverse@[p]@[j].0 < n);
                assert(inverse@[p]@.contains((arr@[j].0, arr@[j].1)));
            }
            let mut found = false;
            let mut k: usize = 0;
            while k < arr.len()
                invariant
                    k <= arr@.len(),
                    n == unassigned@.len(),
                    i < n,
                    lineage(store@, unassigned@[i as int]).contains(p),
                    forall|j: int|
                        0 <= j < arr@.len() ==> {
                            let e = #[trigger] arr@[j];
                            e.0 < n && w.contains((p, e.0 as int, e.1))
                        },
                    within(set_ids(*uf), n),
                    sound(store@, unassigned@, w, set_ids(*uf)),
                    keeps_sets(set_ids(*old(uf)), set_ids(*uf)),
                    forall|j: int|
                        0 <= j < k ==> set_ids(*uf)[i as int] == set_ids(
                            *uf,
                        )[(#[trigger] arr@[j]).0 as int],
                    found == exists|j: int| 0 <= j < k && (#[trigger] arr@[j]).1,
                decreases arr@.len() - k,
            {
                let o: usize = arr[k].0;
                let ghost before = set_ids(*uf);
                join(uf, i, o);
                proof {
                    let after = set_ids(*uf);
                    assert(linked(store@, unassigned@, w, i as int, o as int)) by {
                        assert(w.contains((p, o as int, arr@[k as int].1)));
                    }
                    assert forall|g: spec_fn(int) -> int, x: int| #[trigger]
                        respects(store@, unassigned@, w, g) && 0 <= x < after.len() implies g(x)
                        == g((#[trigger] after[x]) as int) by {
                        assert(g(i as int) == g(o as int));
                        assert(g(x) == g(before[x] as int));
                        assert(g(i as int) == g(before[i as int] as int));
                        assert(g(o as int) == g(before[o as int] as int));
                    }
                }
                if arr[k].1 {
                    found = true;
                }
                assert(found == exists|j: int| 0 <= j < k + 1 && (#[trigger] arr@[j]).1) by {
                    assert(arr@[k as int].1 ==> exists|j: int|
                        0 <= j < k + 1 && (#[trigger] arr@[j]).1);
                }
                k = k + 1;
            }
            proof {
                assert forall|o: int, c: bool|
                    0 <= o < n && #[trigger] w.contains((p, o, c)) implies set_ids(*uf)[i as int]
                    == set_ids(*uf)[o] by {
                    let at = choose|at: int| 0 <= at < arr@.len() && arr@[at] == (o as usize, c);
                    assert(arr@[at].0 == o);
                }
                if found {
                    let j = choose|j: int| 0 <= j < arr@.len() && (#[trigger] arr@[j]).1;
                    assert(w.contains((p, arr@[j].0 as int, true)));
                } else if exists|o: int|
                    0 <= o < n && #[trigger] w.contains((p, o, true)) {
                    let o = choose|o: int|
                        0 <= o < n && #[trigger] w.contains((p, o, true));
                    let at = choose|at: int|
                        0 <= at < arr@.len() && arr@[at] == (o as usize, true);
                    assert(arr@[at].1);
                }
            }
            found
        },
    }
}

/// Joins position `i` with every position that it is linked with, and tells whether it is blocked.
fn climb(
    store: &Store,
    unassigned: &Vec<MetaId>,
    inverse: &HashMap<usize, Vec<(usize, bool)>>,
    uf: &mut QuickUnionUf<UnionBySize>,
    i: usize,
) -> (r: bool)
    requires
        lists_below(inverse@, unassigned@.len()),
        i < unassigned@.len(),
        rooted(store@, unassigned@[i as int]),
        within(set_ids(*old(uf)), unassigned@.len()),
        sound(store@, unassigned@, listed(inverse@), set_ids(*old(uf))),
    ensures
        within(set_ids(*final(uf)), unassigned@.len()),
        sound(store@, unassigned@, listed(inverse@), set_ids(*final(uf))),
        keeps_sets(set_ids(*old(uf)), set_ids(*final(uf))),
        forall|o: int|
            0 <= o < unassigned@.len() && #[trigger] linked(
                store@,
                unassigned@,
                listed(inverse@),
                i as int,
                o,
            )
                ==> set_ids(
                *final(uf),
            )[i as int] == set_ids(*final(uf))[o],
        r == blocked(store@, unassigned@, listed(inverse@), i as int),
{
    let ghost w = listed(inverse@);
    let ghost n = unassigned@.len();
    let ghost h = store@;
    let ghost line = lineage(h, unassigned@[i as int]);
    let mut found = false;
    let mut p: MetaId = unassigned[i];
    let ghost mut k: int = 0;
    assert(line =~= Seq::<MetaId>::empty() + lineage(h, p));
    let mut more = true;
    while more
        invariant
            lists_below(inverse@, n),
            w == listed(inverse@),
            h == store@,
            n == unassigned@.len(),
            i < n,
            line == lineage(h, unassigned@[i as int]),
            0 <= k <= line.len(),
            more ==> rooted(h, p) && line == line.take(k) + lineage(h, p),
            !more ==> k == line.len(),
            within(set_ids(*uf), n),
            sound(h, unassigned@, w, set_ids(*uf)),
            keeps_sets(set_ids(*old(uf)), set_ids(*uf)),
            forall|j: int, o: int, c: bool|
                0 <= j < k && 0 <= o < n && #[trigger] w.contains((#[trigger] line[j], o, c))
                    ==> set_ids(*uf)[i as int] == set_ids(*uf)[o],
            found == exists|j: int, o: int|
                0 <= j < k && 0 <= o < n && #[trigger] w.contains((#[trigger] line[j], o, true)),
        decreases
                if more {
                    p + 1
                } else {
                    0
                },
    {
        proof {
            let rest = lineage(h, p);
            assert(rest.len() > 0 && rest[0] == p);
            assert(line[k] == p) by {
                assert((line.take(k) + rest)[k] == rest[0]);
            }
            assert(line.contains(p));
        }
        let hit = unite(store, unassigned, inverse, uf, i, p);
        if hit {
            found = true;
        }
        proof {
            assert forall|j: int, o: int, c: bool|
                0 <= j < k + 1 && 0 <= o < n && #[trigger] w.contains(
                    (#[trigger] line[j], o, c),
                ) implies set_ids(*uf)[i as int] == set_ids(*uf)[o] by {
                if j == k {
                    assert(line[j] == p);
                }
            }
            if found {
                assert(exists|j: int, o: int|
                    0 <= j < k + 1 && 0 <= o < n && #[trigger] w.contains(
                        (#[trigger] line[j], o, true),
                    )) by {
                    if hit {
                        let o = choose|o: int|
                            0 <= o < n && #[trigger] w.contains((p, o, true));
                        assert(w.contains((line[k], o, true)));
                    }
                }
            } else {
                assert forall|j: int, o: int|
                    0 <= j < k + 1 && 0 <= o < n && #[trigger] w.contains(
                        (#[trigger] line[j], o, true),
                    ) implies false by {
                    if j == k {
                        assert(w.contains((p, o, true)));
                    }
                }
            }
        }
        match store.meta(p).parent {
            Some(q) => {
                proof {
                    assert(lineage(h, p) =~= seq![p] + lineage(h, q));
                    assert(line.take(k + 1) + lineage(h, q) =~= line.take(k) + lineage(h, p));
                }
                p = q;
            },
            None => {
                assert(lineage(h, p) =~= seq![p]);
                assert(line.len() == k + 1);
                more = false;
            },
        }
        proof {
            k = k + 1;
        }
    }
    proof {
        assert forall|o: int|
            0 <= o < n && #[trigger] linked(h, unassigned@, w, i as int, o) implies set_ids(
            *uf,
        )[i as int] == set_ids(*uf)[o] by {
            let (q, c) = choose|q: MetaId, c: bool|
                line.contains(q) && #[trigger] w.contains((q, o, c));
            let j = choose|j: int| 0 <= j < line.len() && line[j] == q;
            assert(w.contains((line[j], o, c)));
        }
        if blocked(h, unassigned@, w, i as int) {
            let (q, o) = choose|q: MetaId, o: int|
                0 <= o < n && line.contains(q) && #[trigger] w.contains((q, o, true));
            let j = choose|j: int| 0 <= j < line.len() && line[j] == q;
            assert(w.contains((line[j], o, true)));
        }
        if found {
            let (j, o) = choose|j: int, o: int|
                0 <= j < k && 0 <= o < n && #[trigger] w.contains((#[trigger] line[j], o, true));
            assert(line.contains(line[j]));
            assert(blocked(h, unassigned@, w, i as int));
        }
    }
    found
}

proof fn lemma_inseparable(h: Heap, unassigned: Seq<MetaId>, w: Set<(MetaId, int, bool)>)
    ensures
        forall|i: int| #[trigger] inseparable(h, unassigned, w, i, i),
        forall|i: int, j: int| #[trigger]
            inseparable(h, unassigned, w, i, j) ==> inseparable(h, unassigned, w, j, i),
        forall|i: int, j: int, k: int| #[trigger]
            inseparable(h, unassigned, w, i, j) && #[trigger] inseparable(h, unassigned, w, j, k)
                ==> inseparable(h, unassigned, w, i, k),
{
}

/// Whether `g` sorts the positions below `k` into buckets: each has its place, a bucket holds
/// what is inseparable, in order, and the buckets are in the order of their first positions.
pub open spec fn sorts(
    h: Heap,
    unassigned: Seq<MetaId>,
    w: Set<(MetaId, int, bool)>,
    g: Seq<Seq<int>>,
    k: int,
) -> bool {
    &&& forall|b: int| 0 <= b < g.len() ==> (#[trigger] g[b]).len() > 0
    &&& forall|b: int, x: int|
        0 <= b < g.len() && 0 <= x < g[b].len() ==> 0 <= #[trigger] g[b][x] < k
    &&& forall|b: int, x: int, y: int|
        0 <= b < g.len() && 0 <= x < y < g[b].len() ==> #[trigger] g[b][x] < #[trigger] g[b][y]
    &&& forall|b: int, x: int|
        0 <= b < g.len() && 0 <= x < g[b].len() ==> inseparable(
            h,
            unassigned,
            w,
            g[b][0],
            #[trigger] g[b][x],
        )
    &&& forall|b: int, c: int|
        0 <= b < g.len() && 0 <= c < g.len() && b != c ==> !inseparable(
            h,
            unassigned,
            w,
            (#[trigger] g[b])[0],
            (#[trigger] g[c])[0],
        )
    &&& forall|b: int, c: int|
        0 <= b < c < g.len() ==> (#[trigger] g[b])[0] < (#[trigger] g[c])[0]
    &&& forall|i: int| 0 <= i < k ==> #[trigger] placed(g, i)
}

/// Whether position `i` is in one of the buckets.
pub open spec fn placed(g: Seq<Seq<int>>, i: int) -> bool {
    exists|b: int, x: int| 0 <= b < g.len() && 0 <= x < g[b].len() && #[trigger] g[b][x] == i
}

/// The grouping sorts the positions into buckets.
pub proof fn law_grouping_sorts(
    h: Heap,
    unassigned: Seq<MetaId>,
    w: Set<(MetaId, int, bool)>,
    k: int,
)
    requires
        0 <= k,
    ensures
        sorts(h, unassigned, w, grouping(h, unassigned, w, k), k),
    decreases k,
{
    if k > 0 {
        law_grouping_sorts(h, unassigned, w, k - 1);
        lemma_inseparable(h, unassigned, w);
        let g = grouping(h, unassigned, w, k - 1);
        let g2 = grouping(h, unassigned, w, k);
        match bucket_for(h, unassigned, w, g, k - 1) {
            Some(at) => {
                assert(is_bucket_for(h, unassigned, w, g, k - 1, at));
                assert(g2[at] == g[at].push(k - 1));
                assert forall|b: int| 0 <= b < g.len() implies (#[trigger] g2[b])[0] == g[b][0] by {
                    assert(g[b].len() > 0);
                }
                assert forall|i: int| 0 <= i < k implies #[trigger] placed(g2, i) by {
                    if i < k - 1 {
                        assert(placed(g, i));
                        let (b, x) = choose|b: int, x: int|
                            0 <= b < g.len() && 0 <= x < g[b].len() && #[trigger] g[b][x] == i;
                        assert(g2[b][x] == i);
                    } else {
                        assert(g2[at][g[at].len() as int] == i);
                    }
                }
            },
            None => {
                assert(g2 == g.push(seq![k - 1]));
                assert forall|b: int| 0 <= b < g.len() implies !inseparable(
                    h,
                    unassigned,
                    w,
                    (#[trigger] g[b])[0],
                    k - 1,
                ) by {
                    assert(!is_bucket_for(h, unassigned, w, g, k - 1, b));
                }
                assert(forall|b: int| 0 <= b < g.len() ==> #[trigger] g2[b] == g[b]);
                assert forall|i: int| 0 <= i < k implies #[trigger] placed(g2, i) by {
                    if i < k - 1 {
                        assert(placed(g, i));
                        let (b, x) = choose|b: int, x: int|
                            0 <= b < g.len() && 0 <= x < g[b].len() && #[trigger] g[b][x] == i;
                        assert(g2[b][x] == i);
                    } else {
                        assert(g2[g.len() as int][0] == i);
                    }
                }
                assert forall|b: int, x: int|
                    0 <= b < g2.len() && 0 <= x < g2[b].len() implies 0 <= #[trigger] g2[b][x]
                    < k by {
                    if b < g.len() {
                        assert(g2[b] == g[b]);
                    }
                }
                assert forall|b: int, c: int| 0 <= b < c < g2.len() implies (#[trigger] g2[b])[0]
                    < (#[trigger] g2[c])[0] by {
                    assert(g2[b] == g[b]);
                    assert(g[b].len() > 0);
                    if c < g.len() {
                        assert(g2[c] == g[c]);
                    } else {
                        assert(g[b][0] < k - 1);
                    }
                }
            },
        }
    }
}

/// Different buckets do not interact: no metavariable of one, nor one above it, is involved with
/// a metavariable of another.
pub proof fn law_buckets_independent(
    h: Heap,
    unassigned: Seq<MetaId>,
    w: Set<(MetaId, int, bool)>,
    b: int,
    x: int,
    c: int,
    y: int,
)
    requires
        0 <= b < grouping(h, unassigned, w, unassigned.len() as int).len(),
        0 <= x < grouping(h, unassigned, w, unassigned.len() as int)[b].len(),
        0 <= c < grouping(h, unassigned, w, unassigned.len() as int).len(),
        0 <= y < grouping(h, unassigned, w, unassigned.len() as int)[c].len(),
    ensures
        ({
            let g = grouping(h, unassigned, w, unassigned.len() as int);
            &&& inseparable(h, unassigned, w, g[b][x], g[c][y]) <==> b == c
            &&& b != c ==> !linked(h, unassigned, w, g[b][x], g[c][y])
            &&& g[b][x] == g[c][y] ==> b == c && x == y
        }),
{
    law_grouping_sorts(h, unassigned, w, unassigned.len() as int);
    lemma_inseparable(h, unassigned, w);
    let g = grouping(h, unassigned, w, unassigned.len() as int);
    let (i, j) = (g[b][x], g[c][y]);
    assert(inseparable(h, unassigned, w, g[b][0], i));
    assert(inseparable(h, unassigned, w, g[c][0], j));
    if inseparable(h, unassigned, w, i, j) && b != c {
        assert(inseparable(h, unassigned, w, g[b][0], g[c][0]));
    }
    if linked(h, unassigned, w, i, j) {
        assert forall|f: spec_fn(int) -> int| #[trigger] respects(h, unassigned, w, f) implies f(i)
            == f(j) by {}
        assert(inseparable(h, unassigned, w, i, j));
    }
    if b == c && x != y {
        if x < y {
            assert(g[b][x] < g[b][y]);
        } else {
            assert(g[b][y] < g[b][x]);
        }
    }
}

/// A map that lists under each metavariable the positions that involve it tells which do.
pub proof fn lemma_listed(
    h: Heap,
    unassigned: Seq<MetaId>,
    inverse: Map<usize, Vec<(usize, bool)>>,
)
    requires
        lists(inverse, |t: MetaId| mentions(h, unassigned, unassigned.len() as int, t)),
        unassigned.len() <= usize::MAX,
    ensures
        listed(inverse) == involvement(h, unassigned),
        lists_below(inverse, unassigned.len()),
{
    let n = unassigned.len() as int;
    let f = |t: MetaId| mentions(h, unassigned, n, t);
    assert forall|t: (MetaId, int, bool)| listed(inverse).contains(t) == involvement(
        h,
        unassigned,
    ).contains(t) by {
        lemma_mentions(h, unassigned, n, t.0);
        assert(inverse.contains_key(t.0) == (f(t.0).len() > 0));
        if listed(inverse).contains(t) {
            let e = (t.1 as usize, t.2);
            let s = inverse[t.0]@;
            let j = choose|j: int| 0 <= j < s.len() && s[j] == e;
            assert(mentions(h, unassigned, n, t.0)[j] == e);
        }
        if involvement(h, unassigned).contains(t) {
            assert(mentions(h, unassigned, n, t.0).contains((t.1 as usize, t.2)));
        }
    }
    assert(listed(inverse) =~= involvement(h, unassigned));
    assert forall|t: usize, j: int|
        #![trigger inverse[t]@[j]]
        inverse.contains_key(t) && 0 <= j < inverse[t]@.len() implies inverse[t]@[j].0 < n by {
        lemma_mentions(h, unassigned, n, t);
        assert(inverse.contains_key(t) == (f(t).len() > 0));
        assert(mentions(h, unassigned, n, t)[j] == inverse[t]@[j]);
    }
}

/// Union metavariables whose assignments interact
pub fn partition(
    store: &Store,
    unassigned: &Vec<MetaId>,
    inverse: &HashMap<usize, Vec<(usize, bool)>>,
) -> (r: Vec<Vec<NextInfo>>)
    requires
        all_rooted(store@, unassigned@),
        lists_below(inverse@, unassigned@.len()),
    ensures
        fills(
            store@,
            unassigned@,
            listed(inverse@),
            grouping(store@, unassigned@, listed(inverse@), unassigned@.len() as int),
            r@,
        ),
{
    let ghost w = listed(inverse@);
    let ghost h = store@;
    let ghost un = unassigned@;
    let n: usize = unassigned.len();
    let mut uf: QuickUnionUf<UnionBySize> = singletons(n);
    let mut eligible: Vec<bool> = Vec::new();
    let mut i: usize = 0;
    while i < n
        invariant
            i <= n,
            n == un.len(),
            h == store@,
            un == unassigned@,
            all_rooted(h, un),
            lists_below(inverse@, un.len()),
            w == listed(inverse@),
            within(set_ids(uf), n as nat),
            sound(h, un, w, set_ids(uf)),
            forall|x: int, o: int|
                0 <= x < i && 0 <= o < n && #[trigger] linked(h, un, w, x, o) ==> set_ids(uf)[x]
                    == set_ids(uf)[o],
            eligible@.len() == i,
            forall|x: int| 0 <= x < i ==> #[trigger] eligible@[x] == !blocked(h, un, w, x),
        decreases n - i,
    {
        assert(rooted(h, un[i as int]));
        let is_blocked = climb(store, unassigned, inverse, &mut uf, i);
        eligible.push(!is_blocked);
        i = i + 1;
    }
    let ghost ids = set_ids(uf);
    proof {
        assert forall|x: int, y: int| 0 <= x < n && 0 <= y < n implies (#[trigger] ids[x]
            == #[trigger] ids[y]) == inseparable(h, un, w, x, y) by {
            if ids[x] == ids[y] {
                assert forall|f: spec_fn(int) -> int| #[trigger] respects(h, un, w, f) implies f(x)
                    == f(y) by {
                    assert(f(x) == f(ids[x] as int));
                    assert(f(y) == f(ids[y] as int));
                }
            }
            let f = |k: int| ids[k] as int;
            assert(respects(h, un, w, f)) by {
                assert forall|a: int, o: int|
                    0 <= a < un.len() && 0 <= o < un.len() && #[trigger] linked(
                        h,
                        un,
                        w,
                        a,
                        o,
                    ) implies f(a) == f(o) by {}
            }
            if inseparable(h, un, w, x, y) {
                assert(f(x) == f(y));
            }
        }
    }
    let mut buckets: Vec<Vec<NextInfo>> = Vec::new();
    let mut slots: Vec<Option<usize>> = Vec::new();
    let mut s: usize = 0;
    while s < n
        invariant
            s <= n,
            slots@.len() == s,
            forall|r: int| 0 <= r < s ==> slots@[r] is None,
        decreases n - s,
    {
        slots.push(None);
        s = s + 1;
    }
    let mut i: usize = 0;
    while i < n
        invariant
            i <= n,
            n == un.len(),
            h == store@,
            un == unassigned@,
            set_ids(uf) == ids,
            within(ids, n as nat),
            forall|x: int, y: int|
                0 <= x < n && 0 <= y < n ==> (#[trigger] ids[x] == #[trigger] ids[y])
                    == inseparable(h, un, w, x, y),
            eligible@.len() == n,
            forall|x: int| 0 <= x < n ==> #[trigger] eligible@[x] == !blocked(h, un, w, x),
            fills(h, un, w, grouping(h, un, w, i as int), buckets@),
            slots@.len() == n,
            forall|r: int|
                0 <= r < n && (#[trigger] slots@[r]) is Some ==> slots@[r]->0 < grouping(
                    h,
                    un,
                    w,
                    i as int,
                ).len() && ids[grouping(h, un, w, i as int)[slots@[r]->0 as int][0]] == r,
            forall|b: int|
                0 <= b < grouping(h, un, w, i as int).len() ==> slots@[ids[(#[trigger] grouping(
                    h,
                    un,
                    w,
                    i as int,
                )[b])[0]] as int] == Some(b as usize),
        decreases n - i,
    {
        let ghost g = grouping(h, un, w, i as int);
        proof {
            law_grouping_sorts(h, un, w, i as int);
            law_grouping_sorts(h, un, w, i + 1);
            lemma_inseparable(h, un, w);
        }
        let r: usize = find(&mut uf, i);
        let info = NextInfo { meta: unassigned[i], eligible: eligible[i] };
        assert(info == next_info(h, un, w, i as int));
        match slots[r] {
            Some(slot) => {
                proof {
                    assert(g[slot as int].len() > 0);
                    assert(0 <= g[slot as int][0] < i);
                    assert(is_bucket_for(h, un, w, g, i as int, slot as int));
                    let b = bucket_for(h, un, w, g, i as int)->0;
                    assert(is_bucket_for(h, un, w, g, i as int, b));
                    assert(b == slot) by {
                        if b != slot {
                            assert(inseparable(h, un, w, g[b][0], g[slot as int][0]));
                        }
                    }
                    assert(grouping(h, un, w, i + 1) == g.update(
                        slot as int,
                        g[slot as int].push(i as int),
                    ));
                }
                buckets[slot].push(info);
                proof {
                    let g2 = grouping(h, un, w, i + 1);
                    assert forall|b: int| 0 <= b < g.len() implies (#[trigger] g2[b])[0]
                        == g[b][0] by {
                        assert(g[b].len() > 0);
                    }
                }
            },
            None => {
                proof {
                    assert forall|b: int| !is_bucket_for(h, un, w, g, i as int, b) by {
                        if is_bucket_for(h, un, w, g, i as int, b) {
                            assert(g[b].len() > 0);
                            assert(0 <= g[b][0] < i);
                            assert(ids[g[b][0]] == ids[i as int]);
                        }
                    }
                    assert(grouping(h, un, w, i + 1) == g.push(seq![i as int]));
                }
                slots.set(r, Some(buckets.len()));
                let mut bucket: Vec<NextInfo> = Vec::new();
                bucket.push(info);
                buckets.push(bucket);
                proof {
                    let g2 = grouping(h, un, w, i + 1);
                    assert(g2[g.len() as int] == seq![i as int]);
                    assert forall|b: int| 0 <= b < g2.len() implies slots@[ids[(
                    #[trigger] g2[b])[0]] as int] == Some(b as usize) by {
                        if b < g.len() {
                            assert(g2[b] == g[b]);
                            assert(g[b].len() > 0);
                            assert(0 <= g[b][0] < i);
                            assert(!is_bucket_for(h, un, w, g, i as int, b));
                            assert(ids[g[b][0]] != ids[i as int]);
                        }
                    }
                    assert forall|x: int| 0 <= x < n && (#[trigger] slots@[x]) is Some implies slots@[x]->0
                        < g2.len() && ids[g2[slots@[x]->0 as int][0]] == x by {
                        if x != r {
                            assert(g2[slots@[x]->0 as int] == g[slots@[x]->0 as int]);
                        }
                    }
                }
            },
        }
        i = i + 1;
    }
    buckets
}

/// Whether `i` is eligible, and so are none after it.
pub open spec fn last_eligible(members: Seq<NextInfo>, i: int) -> bool {
    &&& 0 <= i < members.len()
    &&& members[i].eligible
    &&& forall|j: int| i < j < members.len() ==> !(#[trigger] members[j]).eligible
}

/// Whether `i` is the most difficult of the eligible ones. Among equals the last eligible one
/// comes first, and after it the earliest.
pub open spec fn most_difficult(members: Seq<NextInfo>, difficulty: Seq<u64>, i: int) -> bool {
    &&& 0 <= i < members.len()
    &&& members[i].eligible
    &&& forall|j: int|
        0 <= j < members.len() && (#[trigger] members[j]).eligible ==> difficulty[j]
            <= difficulty[i]
    &&& last_eligible(members, i) || forall|j: int|
        0 <= j < members.len() && (#[trigger] members[j]).eligible && (j < i || last_eligible(
            members,
            j,
        )) ==> difficulty[j] < difficulty[i]
}

/// The choice among `members`: the first with a rigid equation, or else the most difficult of
/// the eligible ones. There is none if none is eligible.
pub open spec fn selects(
    members: Seq<NextInfo>,
    infos: Seq<MetaInfo>,
    difficulty: Seq<u64>,
    choice: Option<usize>,
) -> bool {
    match choice {
        Some(i) => {
            ||| first_rigid(infos, i as int)
            ||| {
                &&& forall|j: int|
                    0 <= j < infos.len() ==> !(#[trigger] infos[j]).has_rigid_equation
                &&& most_difficult(members, difficulty, i as int)
            }
        },
        None => {
            &&& forall|j: int| 0 <= j < infos.len() ==> !(#[trigger] infos[j]).has_rigid_equation
            &&& forall|j: int| 0 <= j < members.len() ==> !(#[trigger] members[j]).eligible
        },
    }
}

/// Whether `i` is the first with a rigid equation.
pub open spec fn first_rigid(infos: Seq<MetaInfo>, i: int) -> bool {
    &&& 0 <= i < infos.len()
    &&& infos[i].has_rigid_equation
    &&& forall|j: int| 0 <= j < i ==> !(#[trigger] infos[j]).has_rigid_equation
}

/// Whether there is a metavariable to choose: one with a rigid equation, or an eligible one.
pub open spec fn selectable(members: Seq<NextInfo>, infos: Seq<MetaInfo>) -> bool {
    ||| exists|j: int| 0 <= j < infos.len() && (#[trigger] infos[j]).has_rigid_equation
    ||| exists|j: int| 0 <= j < members.len() && (#[trigger] members[j]).eligible
}

/// Whether there is a metavariable to choose in the component.
pub fn can_select(component: &Vec<NextInfo>, infos: &Vec<MetaInfo>) -> (r: bool)
    requires
        infos@.len() == component@.len(),
    ensures
        r == selectable(component@, infos@),
{
    let mut i: usize = 0;
    while i < component.len()
        invariant
            i <= component@.len(),
            infos@.len() == component@.len(),
            forall|j: int|
                0 <= j < i ==> !(#[trigger] infos@[j]).has_rigid_equation
                    && !component@[j].eligible,
            forall|j: int|
                0 <= j < i ==> !(#[trigger] component@[j]).eligible,
        decreases component@.len() - i,
    {
        if infos[i].has_rigid_equation || component[i].eligible {
            assert(infos@[i as int].has_rigid_equation || component@[i as int].eligible);
            return true;
        }
        i = i + 1;
    }
    false
}

/// Choose the metavariable to refine next in a component. The difficulties are given by keys
/// that are ordered as they are.
pub fn select_next(
    component: &Vec<NextInfo>,
    infos: &Vec<MetaInfo>,
    difficulty: &Vec<u64>,
) -> (r: usize)
    requires
        infos@.len() == component@.len(),
        difficulty@.len() == component@.len(),
        selectable(component@, infos@),
    ensures
        selects(component@, infos@, difficulty@, Some(r)),
        r < component@.len(),
{
    let mut last: Option<usize> = None;
    let mut i: usize = 0;
    while i < component.len()
        invariant
            i <= component@.len(),
            infos@.len() == component@.len(),
            forall|j: int| 0 <= j < i ==> !(#[trigger] infos@[j]).has_rigid_equation,
            match last {
                Some(l) => l < i && component@[l as int].eligible && forall|j: int|
                    l < j < i ==> !(#[trigger] component@[j]).eligible,
                None => forall|j: int| 0 <= j < i ==> !(#[trigger] component@[j]).eligible,
            },
        decreases component@.len() - i,
    {
        if infos[i].has_rigid_equation {
            return i;
        }
        if component[i].eligible {
            last = Some(i);
        }
        i = i + 1;
    }
    assert(last is Some);
    let l: usize = last.unwrap();
    let mut best: usize = l;
    let mut i: usize = 0;
    while i < l
        invariant
            i <= l,
            last_eligible(component@, l as int),
            difficulty@.len() == component@.len(),
            best < component@.len(),
            component@[best as int].eligible,
            best == l || best < i,
            forall|j: int|
                0 <= j < i && (#[trigger] component@[j]).eligible ==> difficulty@[j]
                    <= difficulty@[best as int],
            difficulty@[l as int] <= difficulty@[best as int],
            best != l ==> difficulty@[l as int] < difficulty@[best as int] && forall|j: int|
                0 <= j < best && (#[trigger] component@[j]).eligible ==> difficulty@[j]
                    < difficulty@[best as int],
        decreases l - i,
    {
        if component[i].eligible && difficulty[i] > difficulty[best] {
            best = i;
        }
        i = i + 1;
    }
    best
}

/// The metavariables of one component, with the information on each.
pub struct Group {
    pub members: Vec<NextInfo>,
    pub infos: Vec<MetaInfo>,
}

/// An independent component produced by split
pub struct Component {
    pub next: MetaInfo,
    pub unassigned: Vec<MetaId>,
}

/// The information on the first `k` of `members`. Also gives the next identifier.
pub open spec fn infos_of(
    h: Heap,
    members: Seq<NextInfo>,
    k: int,
    stats: Map<u64, MetaStats>,
    fuel: nat,
    next: u64,
) -> Result<(Seq<MetaInfo>, u64), Fault>
    decreases k,
{
    if k <= 0 {
        Ok((Seq::empty(), next))
    } else {
        match infos_of(h, members, k - 1, stats, fuel, next) {
            Err(f) => Err(f),
            Ok((s, n)) => match meta_info(h, members[k - 1].meta, stats, fuel, n) {
                Err(f) => Err(f),
                Ok((i, n2)) => Ok((s.push(i), n2)),
            },
        }
    }
}

/// The members of the buckets of the grouping `g`.
pub open spec fn members_of(h: Heap, unassigned: Seq<MetaId>, g: Seq<Seq<int>>) -> Seq<
    Seq<NextInfo>,
> {
    let w = involvement(h, unassigned);
    g.map_values(|b: Seq<int>| b.map_values(|i: int| next_info(h, unassigned, w, i)))
}

/// The information on the members of the first `k` buckets. Also gives the next identifier.
pub open spec fn buckets_infos(
    h: Heap,
    buckets: Seq<Seq<NextInfo>>,
    k: int,
    stats: Map<u64, MetaStats>,
    fuel: nat,
    next: u64,
) -> Result<(Seq<Seq<MetaInfo>>, u64), Fault>
    decreases k,
{
    if k <= 0 {
        Ok((Seq::empty(), next))
    } else {
        match buckets_infos(h, buckets, k - 1, stats, fuel, next) {
            Err(f) => Err(f),
            Ok((s, n)) => match infos_of(
                h,
                buckets[k - 1],
                buckets[k - 1].len() as int,
                stats,
                fuel,
                n,
            ) {
                Err(f) => Err(f),
                Ok((i, n2)) => Ok((s.push(i), n2)),
            },
        }
    }
}

/// The components that `unassigned` falls into, with the information on each metavariable. Also
/// gives the next identifier.
#[verifier::opaque]
pub open spec fn grouped(
    h: Heap,
    unassigned: Seq<MetaId>,
    stats: Map<u64, MetaStats>,
    fuel: nat,
    next: u64,
) -> Result<(Seq<(Seq<NextInfo>, Seq<MetaInfo>)>, u64), Fault> {
    if !separable(h, unassigned) {
        Err(Fault::Malformed)
    } else {
        let buckets = members_of(
            h,
            unassigned,
            grouping(h, unassigned, involvement(h, unassigned), unassigned.len() as int),
        );
        match buckets_infos(h, buckets, buckets.len() as int, stats, fuel, next) {
            Err(f) => Err(f),
            Ok((infos, n)) => Ok((Seq::new(buckets.len(), |b: int| (buckets[b], infos[b])), n)),
        }
    }
}

/// The contents of groups.
pub open spec fn group_views(groups: Seq<Group>) -> Seq<(Seq<NextInfo>, Seq<MetaInfo>)> {
    groups.map_values(|g: Group| (g.members@, g.infos@))
}

proof fn lemma_infos_fail(
    h: Heap,
    members: Seq<NextInfo>,
    k: int,
    n: int,
    stats: Map<u64, MetaStats>,
    fuel: nat,
    next: u64,
)
    requires
        0 <= k <= n,
        infos_of(h, members, k, stats, fuel, next) is Err,
    ensures
        infos_of(h, members, n, stats, fuel, next) == infos_of(h, members, k, stats, fuel, next),
    decreases n - k,
{
    if k < n {
        lemma_infos_fail(h, members, k, n - 1, stats, fuel, next);
    }
}

proof fn lemma_buckets_infos_fail(
    h: Heap,
    buckets: Seq<Seq<NextInfo>>,
    k: int,
    n: int,
    stats: Map<u64, MetaStats>,
    fuel: nat,
    next: u64,
)
    requires
        0 <= k <= n,
        buckets_infos(h, buckets, k, stats, fuel, next) is Err,
    ensures
        buckets_infos(h, buckets, n, stats, fuel, next) == buckets_infos(
            h,
            buckets,
            k,
            stats,
            fuel,
            next,
        ),
    decreases n - k,
{
    if k < n {
        lemma_buckets_infos_fail(h, buckets, k, n - 1, stats, fuel, next);
    }
}

/// Collects the information on each of the members.
fn collect_infos(
    store: &Store,
    members: &Vec<NextInfo>,
    stats: &rustc_hash::FxHashMap<u64, MetaStats>,
    fuel: usize,
    ids: &mut Ids,
) -> (r: Result<Vec<MetaInfo>, Fault>)
    requires
        forall|k: int| 0 <= k < members@.len() ==> (#[trigger] members@[k]).meta < store@.metas.len(),
    ensures
        infos_of(
            store@,
            members@,
            members@.len() as int,
            stats@,
            fuel as nat,
            old(ids).next,
        ) == match r {
            Ok(v) => Ok::<(Seq<MetaInfo>, u64), Fault>((v@, final(ids).next)),
            Err(f) => Err(f),
        },
        r matches Ok(v) ==> v@.len() == members@.len(),
{
    let mut infos: Vec<MetaInfo> = Vec::new();
    let mut k: usize = 0;
    while k < members.len()
        invariant
            k <= members@.len(),
            infos@.len() == k,
            forall|k: int|
                0 <= k < members@.len() ==> (#[trigger] members@[k]).meta < store@.metas.len(),
            infos_of(store@, members@, k as int, stats@, fuel as nat, old(ids).next) == Ok::<
                (Seq<MetaInfo>, u64),
                Fault,
            >((infos@, ids.next)),
        decreases members@.len() - k,
    {
        match MetaInfo::new(store, members[k].meta, stats, fuel, ids) {
            Err(f) => {
                proof {
                    lemma_infos_fail(
                        store@,
                        members@,
                        k + 1,
                        members@.len() as int,
                        stats@,
                        fuel as nat,
                        old(ids).next,
                    );
                }
                return Err(f);
            },
            Ok(info) => infos.push(info),
        }
        k = k + 1;
    }
    Ok(infos)
}

fn copy_members(v: &Vec<NextInfo>) -> (r: Vec<NextInfo>)
    ensures
        r@ == v@,
{
    let mut r: Vec<NextInfo> = Vec::new();
    let mut i: usize = 0;
    while i < v.len()
        invariant
            i <= v@.len(),
            r@ == v@.take(i as int),
        decreases v@.len() - i,
    {
        r.push(v[i]);
        i = i + 1;
        assert(v@.take(i as int) =~= v@.take(i - 1).push(v@[i - 1]));
    }
    assert(v@.take(i as int) =~= v@);
    r
}

/// Partition the unassigned metavariables into independent components, with the information
/// that is needed to choose the next metavariable of each.
pub fn group(
    store: &Store,
    unassigned: &Vec<MetaId>,
    stats: &rustc_hash::FxHashMap<u64, MetaStats>,
    fuel: usize,
    ids: &mut Ids,
) -> (r: Result<Vec<Group>, Fault>)
    ensures
        grouped(store@, unassigned@, stats@, fuel as nat, old(ids).next) == match r {
            Ok(v) => Ok::<(Seq<(Seq<NextInfo>, Seq<MetaInfo>)>, u64), Fault>(
                (group_views(v@), final(ids).next),
            ),
            Err(f) => Err(f),
        },
        r matches Ok(v) ==> forall|b: int|
            0 <= b < v@.len() ==> (#[trigger] v@[b]).infos@.len() == v@[b].members@.len(),
{
    let ghost h = store@;
    let ghost un = unassigned@;
    let mut i: usize = 0;
    while i < unassigned.len()
        invariant
            i <= un.len(),
            h == store@,
            un == unassigned@,
            forall|j: int|
                0 <= j < i ==> involvable(h, #[trigger] un[j]) && rooted(h, un[j]),
        decreases un.len() - i,
    {
        if !can_involve(store, unassigned[i]) || !has_root(store, unassigned[i]) {
            proof {
                reveal(grouped);
                assert(!(involvable(h, un[i as int]) && rooted(h, un[i as int])));
            }
            return Err(Fault::Malformed);
        }
        i = i + 1;
    }
    let inverse = involved_inverse(store, unassigned);
    proof {
        assert(unassigned.len() <= usize::MAX);
        lemma_listed(h, un, inverse@);
    }
    let buckets: Vec<Vec<NextInfo>> = partition(store, unassigned, &inverse);
    let ghost g = grouping(h, un, involvement(h, un), un.len() as int);
    let ghost bs = members_of(h, un, g);
    proof {
        law_grouping_sorts(h, un, involvement(h, un), un.len() as int);
        assert forall|b: int| 0 <= b < g.len() implies (#[trigger] buckets@[b])@ == bs[b] by {
            assert(buckets@[b]@ =~= bs[b]);
        }
        assert forall|b: int, k: int| 0 <= b < bs.len() && 0 <= k < bs[b].len() implies (
        #[trigger] bs[b][k]).meta < h.metas.len() by {
            assert(0 <= g[b][k] < un.len());
            assert(involvable(h, un[g[b][k]]));
        }
    }
    let mut out: Vec<Group> = Vec::new();
    let ghost mut done: Seq<Seq<MetaInfo>> = Seq::empty();
    let mut b: usize = 0;
    while b < buckets.len()
        invariant
            b <= buckets@.len(),
            buckets@.len() == bs.len(),
            h == store@,
            separable(h, unassigned@),
            bs == members_of(
                h,
                unassigned@,
                grouping(h, unassigned@, involvement(h, unassigned@), unassigned@.len() as int),
            ),
            forall|b: int| 0 <= b < bs.len() ==> (#[trigger] buckets@[b])@ == bs[b],
            forall|b: int, k: int|
                0 <= b < bs.len() && 0 <= k < bs[b].len() ==> (#[trigger] bs[b][k]).meta
                    < h.metas.len(),
            out@.len() == b,
            done.len() == b,
            forall|j: int|
                0 <= j < b ==> (#[trigger] out@[j]).members@ == bs[j] && out@[j].infos@ == done[j]
                    && done[j].len() == bs[j].len(),
            buckets_infos(h, bs, b as int, stats@, fuel as nat, old(ids).next) == Ok::<
                (Seq<Seq<MetaInfo>>, u64),
                Fault,
            >((done, ids.next)),
        decreases buckets@.len() - b,
    {
        let members: Vec<NextInfo> = copy_members(&buckets[b]);
        assert(members@ == bs[b as int]);
        assert forall|k: int| 0 <= k < members@.len() implies (#[trigger] members@[k]).meta
            < h.metas.len() by {
            assert(bs[b as int][k].meta < h.metas.len());
        }
        match collect_infos(store, &members, stats, fuel, ids) {
            Err(f) => {
                proof {
                    lemma_buckets_infos_fail(
                        h,
                        bs,
                        b + 1,
                        bs.len() as int,
                        stats@,
                        fuel as nat,
                        old(ids).next,
                    );
                    reveal(grouped);
                }
                return Err(f);
            },
            Ok(infos) => {
                proof {
                    done = done.push(infos@);
                }
                out.push(Group { members, infos });
            },
        }
        b = b + 1;
    }
    proof {
        reveal(grouped);
        assert(group_views(out@) =~= Seq::new(bs.len(), |b: int| (bs[b], done[b])));
    }
    Ok(out)
}

/// Whether `mvar` is `rooted`.
fn has_root(store: &Store, mvar: MetaId) -> (r: bool)
    ensures
        r == rooted(store@, mvar),
{
    let mut m: MetaId = mvar;
    if !store.has_meta(m) {
        return false;
    }
    while store.meta(m).parent.is_some()
        invariant
            m < store@.metas.len(),
            rooted(store@, m) == rooted(store@, mvar),
        decreases m,
    {
        let p: MetaId = store.meta(m).parent.unwrap();
        if p >= m {
            return false;
        }
        m = p;
    }
    true
}

/// The metavariables of a group.
pub open spec fn metas_of(members: Seq<NextInfo>) -> Seq<MetaId> {
    members.map_values(|x: NextInfo| x.meta)
}

/// The choice among `members`.
pub open spec fn choice(
    members: Seq<NextInfo>,
    infos: Seq<MetaInfo>,
    difficulty: Seq<u64>,
) -> Option<usize> {
    choose|c: Option<usize>| selects(members, infos, difficulty, c)
}

/// There is only one choice.
proof fn lemma_choice_unique(
    members: Seq<NextInfo>,
    infos: Seq<MetaInfo>,
    difficulty: Seq<u64>,
    c: Option<usize>,
)
    requires
        infos.len() == members.len(),
        selects(members, infos, difficulty, c),
    ensures
        choice(members, infos, difficulty) == c,
{
    let d = choice(members, infos, difficulty);
    assert(selects(members, infos, difficulty, d));
    if let Some(i) = c {
        if let Some(j) = d {
            if first_rigid(infos, i as int) {
                assert(first_rigid(infos, j as int));
            } else {
                assert(most_difficult(members, difficulty, i as int));
                assert(most_difficult(members, difficulty, j as int));
            }
        }
    }
}

proof fn rigid_below(infos: Seq<MetaInfo>, k: int) -> (r: Option<int>)
    requires
        0 <= k <= infos.len(),
    ensures
        match r {
            Some(i) => i < k && first_rigid(infos, i),
            None => forall|j: int| 0 <= j < k ==> !(#[trigger] infos[j]).has_rigid_equation,
        },
    decreases k,
{
    if k == 0 {
        None
    } else {
        match rigid_below(infos, k - 1) {
            Some(i) => Some(i),
            None => if infos[k - 1].has_rigid_equation {
                Some(k - 1)
            } else {
                None
            },
        }
    }
}

proof fn eligible_from(members: Seq<NextInfo>, k: int) -> (r: Option<int>)
    requires
        0 <= k <= members.len(),
        forall|j: int| k <= j < members.len() ==> !(#[trigger] members[j]).eligible,
    ensures
        match r {
            Some(i) => last_eligible(members, i),
            None => forall|j: int| 0 <= j < members.len() ==> !(#[trigger] members[j]).eligible,
        },
    decreases k,
{
    if k == 0 {
        None
    } else if members[k - 1].eligible {
        Some(k - 1)
    } else {
        eligible_from(members, k - 1)
    }
}

proof fn best_below(members: Seq<NextInfo>, difficulty: Seq<u64>, l: int, k: int) -> (best: int)
    requires
        last_eligible(members, l),
        0 <= k <= l,
    ensures
        0 <= best < members.len(),
        members[best].eligible,
        best == l || best < k,
        forall|j: int|
            0 <= j < k && (#[trigger] members[j]).eligible ==> difficulty[j] <= difficulty[best],
        difficulty[l] <= difficulty[best],
        best != l ==> difficulty[l] < difficulty[best] && forall|j: int|
            0 <= j < best && (#[trigger] members[j]).eligible ==> difficulty[j] < difficulty[best],
    decreases k,
{
    if k == 0 {
        l
    } else {
        let best = best_below(members, difficulty, l, k - 1);
        if members[k - 1].eligible && difficulty[k - 1] > difficulty[best] {
            k - 1
        } else {
            best
        }
    }
}

/// There is a choice.
pub proof fn lemma_choice_exists(
    members: Seq<NextInfo>,
    infos: Seq<MetaInfo>,
    difficulty: Seq<u64>,
)
    requires
        infos.len() == members.len(),
        members.len() <= usize::MAX,
    ensures
        selects(members, infos, difficulty, choice(members, infos, difficulty)),
{
    match rigid_below(infos, infos.len() as int) {
        Some(i) => {
            assert(selects(members, infos, difficulty, Some(i as usize)));
        },
        None => {
            match eligible_from(members, members.len() as int) {
                None => {
                    assert(selects(members, infos, difficulty, None));
                },
                Some(l) => {
                    let best = best_below(members, difficulty, l, l);
                    assert(most_difficult(members, difficulty, best));
                    assert(selects(members, infos, difficulty, Some(best as usize)));
                },
            }
        },
    }
}

/// The view of a `Component`.
#[verifier::ext_equal]
pub struct ComponentView {
    pub next: MetaInfo,
    pub unassigned: Seq<MetaId>,
}

impl Component {
    pub open spec fn view(&self) -> ComponentView {
        ComponentView { next: self.next, unassigned: self.unassigned@ }
    }
}

/// The views of components.
pub open spec fn component_views(cs: Seq<Component>) -> Seq<ComponentView> {
    cs.map_values(|c: Component| c.view())
}

/// The component made of a group by choosing its next metavariable and keeping the others.
pub open spec fn component_of(
    members: Seq<NextInfo>,
    infos: Seq<MetaInfo>,
    difficulty: Seq<u64>,
) -> Option<ComponentView> {
    match choice(members, infos, difficulty) {
        None => None,
        Some(i) => Some(
            ComponentView {
                next: infos[i as int],
                unassigned: metas_of(members).update(
                    i as int,
                    metas_of(members).last(),
                ).drop_last(),
            },
        ),
    }
}

/// The components made of the first `k` groups. There are none if a group has no metavariable
/// that may be chosen.
pub open spec fn components_of(
    groups: Seq<(Seq<NextInfo>, Seq<MetaInfo>)>,
    difficulty: Seq<Vec<u64>>,
    k: int,
) -> Option<Seq<ComponentView>>
    decreases k,
{
    if k <= 0 {
        Some(Seq::empty())
    } else {
        match components_of(groups, difficulty, k - 1) {
            None => None,
            Some(cs) => match component_of(
                groups[k - 1].0,
                groups[k - 1].1,
                difficulty[k - 1]@,
            ) {
                None => None,
                Some(c) => Some(cs.push(c)),
            },
        }
    }
}

proof fn lemma_components_fail(
    groups: Seq<(Seq<NextInfo>, Seq<MetaInfo>)>,
    difficulty: Seq<Vec<u64>>,
    k: int,
    n: int,
)
    requires
        0 <= k <= n,
        components_of(groups, difficulty, k) is None,
    ensures
        components_of(groups, difficulty, n) is None,
    decreases n - k,
{
    if k < n {
        lemma_components_fail(groups, difficulty, k, n - 1);
    }
}

/// Whether there is a difficulty for each metavariable of each group.
pub open spec fn rated(
    groups: Seq<(Seq<NextInfo>, Seq<MetaInfo>)>,
    difficulty: Seq<Vec<u64>>,
) -> bool {
    &&& difficulty.len() == groups.len()
    &&& forall|b: int|
        0 <= b < groups.len() ==> (#[trigger] groups[b]).1.len() == groups[b].0.len()
            && difficulty[b]@.len() == groups[b].0.len()
}

/// Choose the next metavariable of each component. There are none if a component has no
/// metavariable that may be chosen.
pub fn split(groups: &Vec<Group>, difficulty: &Vec<Vec<u64>>) -> (r: Option<Vec<Component>>)
    requires
        rated(group_views(groups@), difficulty@),
    ensures
        components_of(group_views(groups@), difficulty@, groups@.len() as int) == match r {
            Some(cs) => Some(component_views(cs@)),
            None => None,
        },
{
    let ghost gs = group_views(groups@);
    let mut out: Vec<Component> = Vec::new();
    assert(component_views(out@) =~= Seq::empty());
    let mut b: usize = 0;
    while b < groups.len()
        invariant
            b <= groups@.len(),
            gs == group_views(groups@),
            rated(gs, difficulty@),
            components_of(gs, difficulty@, b as int) == Some(component_views(out@)),
        decreases groups@.len() - b,
    {
        let group: &Group = &groups[b];
        assert(gs[b as int] == (group.members@, group.infos@));
        if !can_select(&group.members, &group.infos) {
            proof {
                lemma_choice_unique(group.members@, group.infos@, difficulty@[b as int]@, None);
                lemma_components_fail(gs, difficulty@, b + 1, gs.len() as int);
            }
            return None;
        }
        let at: usize = select_next(&group.members, &group.infos, &difficulty[b]);
        proof {
            lemma_choice_unique(group.members@, group.infos@, difficulty@[b as int]@, Some(at));
        }
        let next: MetaInfo = group.infos[at];
        let mut unassigned: Vec<MetaId> = Vec::new();
        let mut k: usize = 0;
        while k < group.members.len()
            invariant
                k <= group.members@.len(),
                unassigned@ == metas_of(group.members@).take(k as int),
            decreases group.members@.len() - k,
        {
            unassigned.push(group.members[k].meta);
            k = k + 1;
            assert(metas_of(group.members@).take(k as int) =~= metas_of(group.members@).take(
                k - 1,
            ).push(group.members@[k - 1].meta));
        }
        assert(unassigned@ =~= metas_of(group.members@));
        unassigned.swap_remove(at);
        let ghost before = out@;
        out.push(Component { next, unassigned });
        assert(component_views(out@) =~= component_views(before).push(out@.last().view()));
        b = b + 1;
    }
    Some(out)
}

/// What a component holds is what its group held: the next metavariable and the others.
pub proof fn law_split_keeps(
    members: Seq<NextInfo>,
    infos: Seq<MetaInfo>,
    difficulty: Seq<u64>,
    c: ComponentView,
)
    requires
        component_of(members, infos, difficulty) == Some(c),
        infos.len() == members.len(),
        members.len() <= usize::MAX,
        forall|k: int| 0 <= k < members.len() ==> (#[trigger] infos[k]).meta == members[k].meta,
    ensures
        metas_of(members).to_multiset() == c.unassigned.to_multiset().insert(c.next.meta),
{
    broadcast use vstd::seq_lib::group_to_multiset_ensures;

    lemma_choice_exists(members, infos, difficulty);
    let i = choice(members, infos, difficulty)->0;
    assert(selects(members, infos, difficulty, Some(i)));
    assert(0 <= i < members.len());
    let ms = metas_of(members);
    let moved = ms.update(i as int, ms.last());
    assert(ms[i as int] == c.next.meta) by {
        assert(infos[i as int].meta == members[i as int].meta);
    }
    assert(moved.drop_last().push(moved.last()) =~= moved);
    assert(moved.last() == ms.last());
    if i == ms.len() - 1 {
        assert(moved =~= ms);
        assert(ms.drop_last().push(ms.last()) =~= ms);
    } else {
        assert(moved.to_multiset() =~= ms.to_multiset().remove(ms[i as int]).insert(ms.last())) by {
            vstd::seq_lib::to_multiset_update(ms, i as int, ms.last());
        }
        assert(moved.drop_last().to_multiset().insert(ms.last()) =~= moved.to_multiset());
        assert forall|x: MetaId|
            ms.to_multiset().count(x) == #[trigger] c.unassigned.to_multiset().insert(
                c.next.meta,
            ).count(x) by {
            assert(ms.to_multiset().contains(ms[i as int])) by {
                assert(ms.contains(ms[i as int]));
            }
            let rest = c.unassigned.to_multiset();
            assert(rest.insert(ms.last()).count(x) == moved.to_multiset().count(x));
        }
        assert(ms.to_multiset() =~= c.unassigned.to_multiset().insert(c.next.meta));
    }
}

} // verus!
