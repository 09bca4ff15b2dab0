//! What goes into one component, and what is refined first in it.
use crate::data::MetaId;
use crate::independence::{
    all_rooted, choice, grouped, grouping, inseparable, involved, involvement, law_grouping_sorts,
    lemma_choice_exists, lineage, linked, members_of, next_info, placed, respects, rooted, selects,
    separable, NextInfo,
};
use crate::memory::Heap;
use crate::stats::{MetaInfo, MetaStats};
use vstd::prelude::*;

verus! {

/// Whether each of `path` but the first is the parent of the one before it.
pub open spec fn ascends(h: Heap, path: Seq<MetaId>) -> bool {
    forall|k: int|
        0 <= k < path.len() - 1 ==> h.metas[#[trigger] path[k] as int].parent == Some(path[k + 1])
}

/// Whether `p` is `m` or above it.
pub open spec fn over(h: Heap, m: MetaId, p: MetaId) -> bool {
    exists|path: Seq<MetaId>| #[trigger]
        ascends(h, path) && path.len() > 0 && path[0] == m && path.last() == p
}

/// The line of a metavariable is itself and all that are above it, and no others.
pub proof fn law_lineage(h: Heap, m: MetaId, p: MetaId)
    requires
        rooted(h, m),
    ensures
        lineage(h, m).contains(p) <==> over(h, m, p),
    decreases m,
{
    let line = lineage(h, m);
    if line.contains(p) {
        if p == m {
            assert(ascends(h, seq![m]));
        } else {
            let q = h.metas[m as int].parent->0;
            law_lineage(h, q, p);
            let j = choose|j: int| 0 <= j < line.len() && line[j] == p;
            assert(lineage(h, q)[j - 1] == p);
            let path = choose|path: Seq<MetaId>| #[trigger]
                ascends(h, path) && path.len() > 0 && path[0] == q && path.last() == p;
            let longer = seq![m] + path;
            assert forall|k: int| 0 <= k < longer.len() - 1 implies h.metas[
                #[trigger] longer[k] as int
            ].parent == Some(longer[k + 1]) by {
                if k > 0 {
                    assert(longer[k] == path[k - 1] && longer[k + 1] == path[k]);
                }
            }
            assert(ascends(h, longer) && longer.last() == p);
        }
    }
    if over(h, m, p) {
        let path = choose|path: Seq<MetaId>| #[trigger]
            ascends(h, path) && path.len() > 0 && path[0] == m && path.last() == p;
        if path.len() == 1 {
            assert(line[0] == p);
        } else {
            assert(h.metas[path[0] as int].parent == Some(path[1]));
            let q = path[1];
            let rest = path.skip(1);
            assert forall|k: int| 0 <= k < rest.len() - 1 implies h.metas[
                #[trigger] rest[k] as int
            ].parent == Some(rest[k + 1]) by {
                assert(rest[k] == path[k + 1] && rest[k + 1] == path[k + 2]);
            }
            assert(ascends(h, rest) && rest[0] == q && rest.last() == p);
            law_lineage(h, q, p);
            let j = choose|j: int| 0 <= j < lineage(h, q).len() && lineage(h, q)[j] == p;
            assert(line[j + 1] == p);
        }
    }
}

/// Whether the `i`th of `ms`, or a metavariable above it, is involved in the `o`th.
pub open spec fn interacts(h: Heap, ms: Seq<MetaId>, i: int, o: int) -> bool {
    exists|p: MetaId, c: bool|
        over(h, ms[i], p) && #[trigger] involved(h, ms[o]).contains((p, c))
}

/// Whether each of `path` interacts with the next one, or the next one with it.
pub open spec fn chained(h: Heap, ms: Seq<MetaId>, path: Seq<int>) -> bool {
    &&& forall|k: int| 0 <= k < path.len() ==> 0 <= #[trigger] path[k] < ms.len()
    &&& forall|k: int|
        0 <= k < path.len() - 1 ==> interacts(h, ms, #[trigger] path[k], path[k + 1]) || interacts(
            h,
            ms,
            path[k + 1],
            path[k],
        )
}

/// Whether the `i`th and the `j`th of `ms` are connected by interactions.
pub open spec fn connected(h: Heap, ms: Seq<MetaId>, i: int, j: int) -> bool {
    exists|path: Seq<int>| #[trigger]
        chained(h, ms, path) && path.len() > 0 && path[0] == i && path.last() == j
}

/// Whether the positions `i` and `j` are in one bucket.
pub open spec fn together(g: Seq<Seq<int>>, i: int, j: int) -> bool {
    exists|b: int, x: int, y: int|
        0 <= b < g.len() && 0 <= x < g[b].len() && 0 <= y < g[b].len() && #[trigger] g[b][x] == i
            && #[trigger] g[b][y] == j
}

proof fn lemma_interacts(h: Heap, ms: Seq<MetaId>, i: int, o: int)
    requires
        all_rooted(h, ms),
        0 <= i < ms.len(),
        0 <= o < ms.len(),
    ensures
        linked(h, ms, involvement(h, ms), i, o) <==> interacts(h, ms, i, o),
{
    let w = involvement(h, ms);
    assert(rooted(h, ms[i]));
    if linked(h, ms, w, i, o) {
        let (p, c) = choose|p: MetaId, c: bool|
            lineage(h, ms[i]).contains(p) && #[trigger] w.contains((p, o, c));
        law_lineage(h, ms[i], p);
        assert(involved(h, ms[o]).contains((p, c)));
    }
    if interacts(h, ms, i, o) {
        let (p, c) = choose|p: MetaId, c: bool|
            over(h, ms[i], p) && #[trigger] involved(h, ms[o]).contains((p, c));
        law_lineage(h, ms[i], p);
        assert(w.contains((p, o, c)));
    }
}

proof fn lemma_connected_more(h: Heap, ms: Seq<MetaId>, i: int, j: int, k: int)
    requires
        connected(h, ms, i, j),
        0 <= k < ms.len(),
        interacts(h, ms, j, k) || interacts(h, ms, k, j),
    ensures
        connected(h, ms, i, k),
{
    let path = choose|path: Seq<int>| #[trigger]
        chained(h, ms, path) && path.len() > 0 && path[0] == i && path.last() == j;
    let longer = path.push(k);
    assert forall|e: int| 0 <= e < longer.len() - 1 implies interacts(
        h,
        ms,
        #[trigger] longer[e],
        longer[e + 1],
    ) || interacts(h, ms, longer[e + 1], longer[e]) by {
        assert(longer[e] == path[e]);
        if e < path.len() - 1 {
            assert(longer[e + 1] == path[e + 1]);
        }
    }
    assert(chained(h, ms, longer));
}

proof fn lemma_connected_back(h: Heap, ms: Seq<MetaId>, i: int, j: int)
    requires
        connected(h, ms, i, j),
    ensures
        connected(h, ms, j, i),
{
    let path = choose|path: Seq<int>| #[trigger]
        chained(h, ms, path) && path.len() > 0 && path[0] == i && path.last() == j;
    let n = path.len() as int;
    let back = Seq::new(path.len(), |e: int| path[n - 1 - e]);
    assert forall|e: int| 0 <= e < n - 1 implies interacts(
        h,
        ms,
        #[trigger] back[e],
        back[e + 1],
    ) || interacts(h, ms, back[e + 1], back[e]) by {
        let f = n - 2 - e;
        assert(path[f] == back[e + 1] && path[f + 1] == back[e]);
    }
    assert forall|e: int| 0 <= e < n implies 0 <= #[trigger] back[e] < ms.len() by {
        assert(back[e] == path[n - 1 - e]);
    }
    assert(chained(h, ms, back) && back[0] == j && back.last() == i);
}

proof fn lemma_connected_trans(h: Heap, ms: Seq<MetaId>, i: int, j: int, k: int)
    requires
        connected(h, ms, i, j),
        connected(h, ms, j, k),
    ensures
        connected(h, ms, i, k),
{
    let a = choose|path: Seq<int>| #[trigger]
        chained(h, ms, path) && path.len() > 0 && path[0] == i && path.last() == j;
    let b = choose|path: Seq<int>| #[trigger]
        chained(h, ms, path) && path.len() > 0 && path[0] == j && path.last() == k;
    let all = a + b.skip(1);
    assert forall|e: int| 0 <= e < all.len() - 1 implies interacts(
        h,
        ms,
        #[trigger] all[e],
        all[e + 1],
    ) || interacts(h, ms, all[e + 1], all[e]) by {
        if e < a.len() - 1 {
            assert(all[e] == a[e] && all[e + 1] == a[e + 1]);
        } else {
            let f = e - (a.len() - 1);
            assert(all[e] == b[f] && all[e + 1] == b[f + 1]);
        }
    }
    assert forall|e: int| 0 <= e < all.len() implies 0 <= #[trigger] all[e] < ms.len() by {
        if e < a.len() {
            assert(all[e] == a[e]);
        } else {
            assert(all[e] == b[e - a.len() + 1]);
        }
    }
    assert(chained(h, ms, all) && all[0] == i && all.last() == k);
}

proof fn lemma_inseparable_connected(h: Heap, ms: Seq<MetaId>, i: int, j: int)
    requires
        all_rooted(h, ms),
        0 <= i < ms.len(),
        0 <= j < ms.len(),
        inseparable(h, ms, involvement(h, ms), i, j),
    ensures
        connected(h, ms, i, j),
{
    let w = involvement(h, ms);
    let f = |x: int|
        if connected(h, ms, i, x) {
            1int
        } else {
            0int
        };
    assert forall|x: int, o: int|
        0 <= x < ms.len() && 0 <= o < ms.len() && #[trigger] linked(h, ms, w, x, o) implies f(x)
        == f(o) by {
        lemma_interacts(h, ms, x, o);
        if connected(h, ms, i, x) {
            lemma_connected_more(h, ms, i, x, o);
        }
        if connected(h, ms, i, o) {
            lemma_connected_more(h, ms, i, o, x);
        }
    }
    assert(respects(h, ms, w, f));
    let path = seq![i];
    assert(chained(h, ms, path) && path[0] == i && path.last() == i);
    assert(f(i) == f(j));
}

proof fn lemma_chain_labels(h: Heap, ms: Seq<MetaId>, path: Seq<int>, f: spec_fn(int) -> int)
    requires
        all_rooted(h, ms),
        chained(h, ms, path),
        path.len() > 0,
        respects(h, ms, involvement(h, ms), f),
    ensures
        f(path[0]) == f(path.last()),
    decreases path.len(),
{
    if path.len() > 1 {
        let short = path.drop_last();
        assert forall|k: int| 0 <= k < short.len() - 1 implies interacts(
            h,
            ms,
            #[trigger] short[k],
            short[k + 1],
        ) || interacts(h, ms, short[k + 1], short[k]) by {
            assert(short[k] == path[k] && short[k + 1] == path[k + 1]);
        }
        lemma_chain_labels(h, ms, short, f);
        let e = path.len() - 2;
        let (x, y) = (path[e], path[e + 1]);
        lemma_interacts(h, ms, x, y);
        lemma_interacts(h, ms, y, x);
    }
}

/// Whether `g` tells where the members of the components `gs` stand in `ms`: all of `ms` are there,
/// once each, and two are in one component just where they are connected by interactions. A member
/// is eligible unless it, or a metavariable above it, is in the codomain of the type of one of
/// `ms`.
pub open spec fn falls_apart(
    h: Heap,
    ms: Seq<MetaId>,
    gs: Seq<(Seq<NextInfo>, Seq<MetaInfo>)>,
    g: Seq<Seq<int>>,
) -> bool {
    &&& g.len() == gs.len()
    &&& forall|b: int| 0 <= b < g.len() ==> (#[trigger] g[b]).len() == gs[b].0.len()
    &&& forall|b: int, x: int|
        0 <= b < g.len() && 0 <= x < g[b].len() ==> 0 <= #[trigger] g[b][x] < ms.len()
            && gs[b].0[x].meta == ms[g[b][x]] && gs[b].0[x].eligible == !in_a_codomain(
            h,
            ms,
            g[b][x],
        )
    &&& forall|b: int, c: int, x: int, y: int|
        0 <= b < g.len() && 0 <= c < g.len() && 0 <= x < g[b].len() && 0 <= y < g[c].len()
            && #[trigger] g[b][x] == #[trigger] g[c][y] ==> b == c && x == y
    &&& forall|i: int, j: int|
        0 <= i < ms.len() && 0 <= j < ms.len() ==> (#[trigger] together(g, i, j) <==> connected(
            h,
            ms,
            i,
            j,
        ))
}

/// Whether the `i`th of `ms`, or a metavariable above it, is in the codomain of the type of one of
/// `ms`.
pub open spec fn in_a_codomain(h: Heap, ms: Seq<MetaId>, i: int) -> bool {
    exists|p: MetaId, o: int|
        over(h, ms[i], p) && 0 <= o < ms.len() && #[trigger] involved(h, ms[o]).contains((p, true))
}

/// The metavariables fall apart into components: each is in one of them, and two are in the same
/// one just where a chain of interactions connects them.
pub proof fn law_components(
    h: Heap,
    ms: Seq<MetaId>,
    stats: Map<u64, MetaStats>,
    fuel: nat,
    next: u64,
)
    ensures
        match grouped(h, ms, stats, fuel, next) {
            Ok((gs, _)) => exists|g: Seq<Seq<int>>| #[trigger] falls_apart(h, ms, gs, g),
            Err(_) => true,
        },
{
    reveal(grouped);
    if let Ok((gs, _)) = grouped(h, ms, stats, fuel, next) {
        assert(separable(h, ms));
        assert(all_rooted(h, ms));
        let w = involvement(h, ms);
        let n = ms.len() as int;
        let g = grouping(h, ms, w, n);
        law_grouping_sorts(h, ms, w, n);
        let members = members_of(h, ms, g);
        assert forall|b: int, x: int| 0 <= b < g.len() && 0 <= x < g[b].len() implies 0
            <= #[trigger] g[b][x] < n && gs[b].0[x].meta == ms[g[b][x]] && gs[b].0[x].eligible
            == !in_a_codomain(h, ms, g[b][x]) by {
            let i = g[b][x];
            assert(gs[b].0 == members[b]);
            assert(members[b][x] == next_info(h, ms, w, i));
            lemma_eligible(h, ms, i);
        }
        assert forall|i: int, j: int| 0 <= i < n && 0 <= j < n implies (#[trigger] together(g, i, j)
            <==> connected(h, ms, i, j)) by {
            assert(placed(g, i) && placed(g, j));
            let (b, x) = choose|b: int, x: int|
                0 <= b < g.len() && 0 <= x < g[b].len() && #[trigger] g[b][x] == i;
            let (c, y) = choose|c: int, y: int|
                0 <= c < g.len() && 0 <= y < g[c].len() && #[trigger] g[c][y] == j;
            lemma_inseparable_connected(h, ms, g[b][0], i);
            lemma_inseparable_connected(h, ms, g[c][0], j);
            if together(g, i, j) {
                let (d, u, v) = choose|d: int, u: int, v: int|
                    0 <= d < g.len() && 0 <= u < g[d].len() && 0 <= v < g[d].len()
                        && #[trigger] g[d][u] == i && #[trigger] g[d][v] == j;
                lemma_inseparable_connected(h, ms, g[d][0], i);
                lemma_inseparable_connected(h, ms, g[d][0], j);
                lemma_connected_back(h, ms, g[d][0], i);
                lemma_connected_trans(h, ms, i, g[d][0], j);
            }
            if connected(h, ms, i, j) {
                let path = choose|path: Seq<int>| #[trigger]
                    chained(h, ms, path) && path.len() > 0 && path[0] == i && path.last() == j;
                assert forall|f: spec_fn(int) -> int| #[trigger] respects(h, ms, w, f) implies f(
                    g[b][0],
                ) == f(g[c][0]) by {
                    lemma_chain_labels(h, ms, path, f);
                    assert(inseparable(h, ms, w, g[b][0], g[b][x]));
                    assert(inseparable(h, ms, w, g[c][0], g[c][y]));
                }
                assert(inseparable(h, ms, w, g[b][0], g[c][0]));
                assert(b == c);
                assert(g[b][y] == j);
            }
        }
        assert forall|b: int, c: int, x: int, y: int|
            0 <= b < g.len() && 0 <= c < g.len() && 0 <= x < g[b].len() && 0 <= y < g[c].len()
                && #[trigger] g[b][x] == #[trigger] g[c][y] implies b == c && x == y by {
            if b != c {
                assert forall|f: spec_fn(int) -> int| #[trigger] respects(h, ms, w, f) implies f(
                    g[b][0],
                ) == f(g[c][0]) by {
                    assert(inseparable(h, ms, w, g[b][0], g[b][x]));
                    assert(inseparable(h, ms, w, g[c][0], g[c][y]));
                }
                assert(inseparable(h, ms, w, g[b][0], g[c][0]));
            } else if x != y {
                if x < y {
                    assert(g[b][x] < g[b][y]);
                } else {
                    assert(g[b][y] < g[b][x]);
                }
            }
        }
        assert(falls_apart(h, ms, gs, g));
    }
}

proof fn lemma_eligible(h: Heap, ms: Seq<MetaId>, i: int)
    requires
        all_rooted(h, ms),
        0 <= i < ms.len(),
    ensures
        next_info(h, ms, involvement(h, ms), i).eligible == !in_a_codomain(h, ms, i),
{
    let w = involvement(h, ms);
    assert(rooted(h, ms[i]));
    if !next_info(h, ms, w, i).eligible {
        let (p, o) = choose|p: MetaId, o: int|
            lineage(h, ms[i]).contains(p) && #[trigger] w.contains((p, o, true));
        law_lineage(h, ms[i], p);
        assert(involved(h, ms[o]).contains((p, true)));
    }
    if in_a_codomain(h, ms, i) {
        let (p, o) = choose|p: MetaId, o: int|
            over(h, ms[i], p) && 0 <= o < ms.len() && #[trigger] involved(h, ms[o]).contains(
                (p, true),
            );
        law_lineage(h, ms[i], p);
        assert(w.contains((p, o, true)));
    }
}

/// What is refined next in a component: if one of its members has a rigid equation, the first one
/// that has. Otherwise one that is eligible and as difficult as any that is. There is none just
/// where no member has a rigid equation and none is eligible.
pub proof fn law_choice(members: Seq<NextInfo>, infos: Seq<MetaInfo>, difficulty: Seq<u64>)
    requires
        infos.len() == members.len() <= usize::MAX,
        difficulty.len() == members.len(),
    ensures
        ({
            let c = choice(members, infos, difficulty);
            let rigid = exists|j: int|
                0 <= j < infos.len() && (#[trigger] infos[j]).has_rigid_equation;
            &&& c is None <==> !rigid && forall|j: int|
                0 <= j < members.len() ==> !(#[trigger] members[j]).eligible
            &&& c matches Some(i) ==> {
                &&& i < members.len()
                &&& rigid ==> infos[i as int].has_rigid_equation && forall|j: int|
                    0 <= j < i ==> !(#[trigger] infos[j]).has_rigid_equation
                &&& !rigid ==> members[i as int].eligible && forall|j: int|
                    0 <= j < members.len() && (#[trigger] members[j]).eligible ==> difficulty[j]
                        <= difficulty[i as int]
            }
        }),
{
    lemma_choice_exists(members, infos, difficulty);
    assert(selects(members, infos, difficulty, choice(members, infos, difficulty)));
}

} // verus!
