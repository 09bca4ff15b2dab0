//! What a step of the search decides, and what a move by hand does.
use crate::backtrack::{lemma_released, released, ProverView};
use crate::components::law_choice;
use crate::counts::law_info_counts;
use crate::data::{MetaId, TypeBase, TypeView};
use crate::frames::FrameView;
use crate::ids::Fault;
use crate::independence::{
    choice, component_of, components_of, law_split_keeps, leaves, metas_of, rated, ComponentView,
    NextInfo,
};
use crate::index::DeBruijnIndex;
use crate::memory::Heap;
use crate::prover::{
    advanced, finished, least_margin, new_ids, problem_type, selected, spawned, started,
    with_candidate, Move,
};
use crate::refine::{forced, AUTOFILL_LIMIT};
use crate::search::{attempt, CandidateView};
use crate::session::{assigned_state, played, AppStateView};
use crate::stack::{kept, resumed, stacked, unwound, StackFrameView};
use crate::stats::{MetaInfo, MetaStats};
use crate::survey::{inside, law_leaves_exact};
use crate::types::typed_meta;
use std::rc::Rc;
use vstd::prelude::*;

verus! {

/// Whether the `i`th of the margins is the least, and those before it are greater.
pub open spec fn least(margins: Seq<i64>, i: int) -> bool {
    &&& 0 <= i < margins.len()
    &&& forall|j: int| 0 <= j < margins.len() ==> margins[i] <= #[trigger] margins[j]
    &&& forall|j: int| 0 <= j < i ==> margins[i] < #[trigger] margins[j]
}

proof fn lemma_least(margins: Seq<i64>, k: nat) -> (i: int)
    requires
        0 < k <= margins.len(),
    ensures
        0 <= i < k,
        forall|j: int| 0 <= j < k ==> margins[i] <= #[trigger] margins[j],
        forall|j: int| 0 <= j < i ==> margins[i] < #[trigger] margins[j],
    decreases k,
{
    if k == 1 {
        0
    } else {
        let i = lemma_least(margins, (k - 1) as nat);
        if margins[k - 1] < margins[i] {
            k - 1
        } else {
            i
        }
    }
}

/// The frame that is selected is the first of those with the least margin.
pub proof fn law_selected(margins: Seq<i64>)
    requires
        margins.len() > 0,
    ensures
        least(margins, selected(margins)),
{
    let i = lemma_least(margins, margins.len());
    if forall|j: int| 0 <= j < margins.len() ==> (#[trigger] margins[j]) == i64::MAX {
        assert(least_margin(margins, 0));
    } else {
        assert(margins[i] < i64::MAX) by {
            let j = choose|j: int| 0 <= j < margins.len() && (#[trigger] margins[j]) != i64::MAX;
            assert(margins[i] <= margins[j]);
        }
        assert(least_margin(margins, i));
    }
    let s = selected(margins);
    assert(least_margin(margins, s));
}

/// A step of the search: with no frame left to be assigned, the term is a solution, and nothing
/// changes. Otherwise the first of the frames with the least margin leaves the list. It is to be
/// assigned just where the term may still grow and the frame has a candidate left; else the search
/// goes back from it, and ends if there is nowhere to go back to.
pub proof fn law_advance(h: Heap, p: ProverView, margins: Seq<i64>, max_size: usize)
    requires
        margins.len() == p.frames.len(),
    ensures
        ({
            let (g, q, r) = advanced(h, p, margins, max_size);
            &&& p.frames.len() == 0 ==> r == Move::Solved && g == h && q == p
            &&& p.frames.len() > 0 ==> exists|i: int|
                {
                    let f = p.frames[i];
                    let fr = p.arena[f as int];
                    let rest = p.frames.to_multiset().remove(f);
                    &&& #[trigger] least(margins, i)
                    &&& r == Move::Assign(f) <==> p.size < max_size && fr.domain.len() > 0
                    &&& r == Move::Assign(f) ==> g == h && q == (ProverView {
                        frames: q.frames,
                        ..p
                    }) && q.frames.to_multiset() == rest
                    &&& r != Move::Assign(f) ==> r == if fr.parent is Some {
                        Move::Backtracked
                    } else {
                        Move::Exhausted
                    }
                    &&& r == Move::Exhausted ==> g == h && q.arena == p.arena && q.size == p.size
                        && q.frames.to_multiset() == p.frames.to_multiset()
                }
        }),
{
    let (g, q, r) = advanced(h, p, margins, max_size);
    if p.frames.len() > 0 {
        law_selected(margins);
        let i = selected(margins);
        let f = p.frames[i];
        let frames = p.frames.update(i, p.frames.last()).drop_last();
        lemma_taken(p.frames, i);
        broadcast use vstd::multiset::group_multiset_axioms;

        if r == Move::Exhausted {
            vstd::seq_lib::to_multiset_build(frames, f);
            vstd::seq_lib::to_multiset_contains(p.frames, f);
            assert(p.frames.contains(f));
            assert(p.frames.to_multiset().remove(f).insert(f) =~= p.frames.to_multiset());
        }
        assert(least(margins, i));
    }
}

proof fn lemma_taken(s: Seq<usize>, i: int)
    requires
        0 <= i < s.len(),
    ensures
        s.update(i, s.last()).drop_last().to_multiset() == s.to_multiset().remove(s[i]),
{
    broadcast use vstd::multiset::group_multiset_axioms;

    let last = s.len() - 1;
    let short = s.drop_last();
    assert(short.push(s.last()) =~= s);
    vstd::seq_lib::to_multiset_build(short, s.last());
    if i == last {
        assert(s.update(i, s.last()).drop_last() =~= short);
        assert(s.to_multiset().remove(s[i]) =~= short.to_multiset());
    } else {
        assert(s.update(i, s.last()).drop_last() =~= short.update(i, s.last()));
        vstd::seq_lib::to_multiset_update(short, i, s.last());
        vstd::seq_lib::to_multiset_contains(short, s[i]);
        assert(short.contains(short[i]));
        assert(short.update(i, s.last()).to_multiset() =~= s.to_multiset().remove(s[i]));
    }
}

/// A move by hand, without forced moves after it, assigns the variable if that is possible, and
/// otherwise changes nothing.
pub proof fn law_move_by_hand(
    h: Heap,
    root: MetaId,
    m: MetaId,
    db: DeBruijnIndex,
    k: nat,
    fuel: nat,
    next: u64,
)
    requires
        k > 0,
        db.0.0 < h.metas[m as int].gamma.len(),
    ensures
        ({
            let node = h.metas[m as int].gamma[db.0.0 as int];
            match (
                attempt(h, db, node, m, fuel, next),
                played(h, root, m, db, k, false, fuel, next),
            ) {
                (Ok((Some(Some(c)), g, n)), Ok((r, n2))) => r == with_candidate(g, m, c) && n2
                    == n,
                (Ok((_, _, n)), Ok((r, n2))) => r == h && n2 == n,
                (Err(e), Err(f)) => e == f,
                _ => false,
            }
        }),
{
}

/// A move: the heap in which it is made, the variable and the metavariable that it is assigned to,
/// and the next identifier.
pub struct Turn {
    pub heap: Heap,
    pub meta: MetaId,
    pub db: DeBruijnIndex,
    pub next: u64,
}

/// What comes of a move if it is possible: the heap with the assignment made, and the next
/// identifier.
pub open spec fn outcome(t: Turn, fuel: nat) -> Option<(Heap, u64)> {
    match attempt(
        t.heap,
        t.db,
        t.heap.metas[t.meta as int].gamma[t.db.0.0 as int],
        t.meta,
        fuel,
        t.next,
    ) {
        Ok((Some(Some(c)), g, n)) => Some((with_candidate(g, t.meta, c), n)),
        _ => None,
    }
}

/// Whether `u` is the move that is forced after `t`, in the term of `root`.
pub open spec fn forces(root: MetaId, t: Turn, u: Turn, fuel: nat) -> bool {
    &&& outcome(t, fuel) matches Some((h, n))
    &&& u.heap == h
    &&& forced(h, leaves(h, root), 0, fuel, n) == Ok::<_, Fault>((Some((u.meta, u.db)), u.next))
}

/// Whether `turns` are the moves that lead from `first` to the heap `g`, at most `k` of them.
/// Without `autofill` there is one. Otherwise each but the first is forced after the one before it,
/// and they go on until none is forced, one is not possible, or there are `k` of them.
pub open spec fn leads_to(
    root: MetaId,
    first: Turn,
    turns: Seq<Turn>,
    k: nat,
    autofill: bool,
    fuel: nat,
    g: Heap,
) -> bool {
    &&& 0 < turns.len() <= k
    &&& turns[0] == first
    &&& !autofill ==> turns.len() == 1
    &&& forall|i: int|
        0 <= i < turns.len() - 1 ==> forces(root, #[trigger] turns[i], turns[i + 1], fuel)
    &&& match outcome(turns.last(), fuel) {
        None => g == turns.last().heap,
        Some((h, n)) => g == h && (!autofill || turns.len() == k || (forced(
            h,
            leaves(h, root),
            0,
            fuel,
            n,
        ) matches Ok((None, _)))),
    }
}

/// A move by hand is made if it is possible, and then those that are forced, one after the other.
pub proof fn law_play(
    h: Heap,
    root: MetaId,
    m: MetaId,
    db: DeBruijnIndex,
    k: nat,
    autofill: bool,
    fuel: nat,
    next: u64,
)
    requires
        k > 0,
    ensures
        match played(h, root, m, db, k, autofill, fuel, next) {
            Ok((g, _)) => exists|turns: Seq<Turn>| #[trigger]
                leads_to(
                    root,
                    (Turn { heap: h, meta: m, db, next }),
                    turns,
                    k,
                    autofill,
                    fuel,
                    g,
                ),
            Err(_) => true,
        },
    decreases k,
{
    let first = Turn { heap: h, meta: m, db, next };
    if let Ok((g, _)) = played(h, root, m, db, k, autofill, fuel, next) {
        let one = seq![first];
        match outcome(first, fuel) {
            None => {
                assert(leads_to(root, first, one, k, autofill, fuel, g));
            },
            Some((h1, n)) => {
                if !autofill {
                    assert(leads_to(root, first, one, k, autofill, fuel, g));
                } else {
                    match forced(h1, leaves(h1, root), 0, fuel, n)->Ok_0 {
                        (None, _) => {
                            assert(leads_to(root, first, one, k, autofill, fuel, g));
                        },
                        (Some((m1, db1)), n1) => {
                            if k == 1 {
                                assert(leads_to(root, first, one, k, autofill, fuel, g));
                            } else {
                                let l = (k - 1) as nat;
                                law_play(h1, root, m1, db1, l, autofill, fuel, n1);
                                let second = Turn { heap: h1, meta: m1, db: db1, next: n1 };
                                let turns = choose|turns: Seq<Turn>| #[trigger]
                                    leads_to(root, second, turns, l, autofill, fuel, g);
                                let all = one + turns;
                                assert forall|i: int| 0 <= i < all.len() - 1 implies forces(
                                    root,
                                    #[trigger] all[i],
                                    all[i + 1],
                                    fuel,
                                ) by {
                                    if i > 0 {
                                        assert(all[i] == turns[i - 1] && all[i + 1] == turns[i]);
                                    }
                                }
                                assert(all.last() == turns.last());
                                assert(leads_to(root, first, all, k, autofill, fuel, g));
                            }
                        },
                    }
                }
            },
        }
    }
}

/// Whether `c` is made of the members of a group: one of them comes next, with the information on
/// it, and the others are left.
pub open spec fn made_of(c: ComponentView, members: Seq<NextInfo>, infos: Seq<MetaInfo>) -> bool {
    &&& infos.contains(c.next)
    &&& metas_of(members).to_multiset() == c.unassigned.to_multiset().insert(c.next.meta)
}

/// Completing an assignment that is not pruned adds a frame below `f` for each group of what is
/// left, which is yet to be assigned, and goes on with those as well. The other frames stay as they
/// are.
pub proof fn law_finished(
    h: Heap,
    p: ProverView,
    f: usize,
    groups: Seq<(Seq<NextInfo>, Seq<MetaInfo>)>,
    difficulty: Seq<Vec<u64>>,
    fuel: nat,
    next: u64,
)
    requires
        f < p.arena.len(),
        rated(groups, difficulty),
        p.arena.len() + groups.len() <= usize::MAX,
        forall|b: int|
            0 <= b < groups.len() ==> (#[trigger] groups[b]).0.len() <= usize::MAX && forall|k: int|
                0 <= k < groups[b].0.len() ==> (#[trigger] groups[b].1[k]).meta
                    == groups[b].0[k].meta,
    ensures
        match finished(h, p, f, groups, difficulty, false, fuel, next) {
            Ok((g, q, r, _)) => {
                &&& r == Move::Deeper
                &&& q.size == p.size + 1
                &&& q.arena.len() == p.arena.len() + groups.len()
                &&& forall|x: int|
                    0 <= x < p.arena.len() && x != f ==> #[trigger] q.arena[x] == p.arena[x]
                &&& (FrameView { children: None, ..q.arena[f as int] }) == (FrameView {
                    children: None,
                    ..p.arena[f as int]
                })
                &&& q.arena[f as int].children matches Some(cs)
                &&& cs.len() == groups.len()
                &&& q.frames == p.frames + cs
                &&& forall|b: int|
                    0 <= b < groups.len() ==> (#[trigger] cs[b]) == p.arena.len() + b && {
                        let child = q.arena[cs[b] as int];
                        child.parent == Some(f) && child.children is None && made_of(
                            child.component,
                            groups[b].0,
                            groups[b].1,
                        )
                    }
            },
            Err(_) => true,
        },
{
    if let Ok((g, q, r, _)) = finished(h, p, f, groups, difficulty, false, fuel, next) {
        let n = groups.len() as int;
        lemma_components(groups, difficulty, n);
        let cs = components_of(groups, difficulty, n)->0;
        lemma_spawned(h, p.arena, f, cs, n, fuel, next);
        let ids = q.arena[f as int].children->0;
        assert(ids == new_ids(p.arena.len(), cs.len()));
        assert forall|b: int| 0 <= b < n implies (#[trigger] ids[b]) == p.arena.len() + b && {
            let child = q.arena[ids[b] as int];
            child.parent == Some(f) && child.children is None && made_of(
                child.component,
                groups[b].0,
                groups[b].1,
            )
        } by {
            assert(cs[b] == component_of(groups[b].0, groups[b].1, difficulty[b]@)->0);
            assert(groups[b].1.len() == groups[b].0.len());
            law_split_keeps(groups[b].0, groups[b].1, difficulty[b]@, cs[b]);
            law_choice(groups[b].0, groups[b].1, difficulty[b]@);
            let i = choice(groups[b].0, groups[b].1, difficulty[b]@)->0;
            assert(groups[b].1[i as int] == cs[b].next);
        }
    }
}

proof fn lemma_components(
    groups: Seq<(Seq<NextInfo>, Seq<MetaInfo>)>,
    difficulty: Seq<Vec<u64>>,
    k: int,
)
    requires
        0 <= k <= groups.len(),
    ensures
        components_of(groups, difficulty, k) matches Some(cs) ==> cs.len() == k && forall|b: int|
            0 <= b < k ==> component_of(groups[b].0, groups[b].1, difficulty[b]@) == Some(
                #[trigger] cs[b],
            ),
    decreases k,
{
    if k > 0 {
        lemma_components(groups, difficulty, k - 1);
    }
}

proof fn lemma_spawned(
    h: Heap,
    arena: Seq<FrameView>,
    f: usize,
    cs: Seq<ComponentView>,
    k: int,
    fuel: nat,
    next: u64,
)
    requires
        0 <= k <= cs.len(),
    ensures
        spawned(h, arena, f, cs, k, fuel, next) matches Ok((_, a, _)) ==> {
            &&& a.len() == arena.len() + k
            &&& forall|x: int| 0 <= x < arena.len() ==> #[trigger] a[x] == arena[x]
            &&& forall|b: int|
                0 <= b < k ==> {
                    let child = #[trigger] a[arena.len() + b];
                    child.parent == Some(f) && child.children is None && child.component == cs[b]
                }
        },
    decreases k,
{
    if k > 0 {
        lemma_spawned(h, arena, f, cs, k - 1, fuel, next);
    }
}

/// Whether `way` leads back from the first `index` frames: each frame on it but the last has
/// nothing left to try, and the next one is the frame that it comes from. A frame is told by the
/// number of frames up to it.
pub open spec fn leads_back(frames: Seq<StackFrameView>, index: nat, way: Seq<nat>) -> bool {
    &&& way.len() > 0
    &&& way[0] == index
    &&& forall|k: int|
        0 <= k < way.len() ==> (#[trigger] way[k]) <= index && (k < way.len() - 1 ==> 0 < way[k]
            && frames[way[k] - 1].domain.len() == 0 && way[k + 1] == frames[way[k] - 1].parent)
}

/// Whether going back from the first `index` frames came to `i`: the frames after it are taken off
/// and its last candidate is taken. What the frames taken off and the frame itself refine is
/// unassigned, and all else is assigned as before. If `i` is none, there are no frames left.
pub open spec fn comes_to(
    h: Heap,
    frames: Seq<StackFrameView>,
    i: nat,
    g: Heap,
    left: Seq<StackFrameView>,
    c: Option<CandidateView>,
) -> bool {
    &&& left.len() == i <= frames.len()
    &&& forall|j: int| 0 <= j < i - 1 ==> #[trigger] left[j] == frames[j]
    &&& i == 0 ==> c is None
    &&& i > 0 ==> {
        &&& frames[i - 1].domain.len() > 0
        &&& c == Some(frames[i - 1].domain.last())
        &&& left[i - 1] == (StackFrameView {
            domain: frames[i - 1].domain.drop_last(),
            ..frames[i - 1]
        })
    }
    &&& g.metas.len() == h.metas.len()
    &&& forall|j: int|
        0 <= j < frames.len() && i <= j + 1 ==> g.metas[(
        #[trigger] frames[j]).next as int].assignment is None
    &&& forall|x: int|
        0 <= x < h.metas.len() && (forall|j: int|
            0 <= j < frames.len() && i <= j + 1 ==> (#[trigger] frames[j]).next != x) ==> (
        #[trigger] g.metas[x]).assignment == h.metas[x].assignment
}

proof fn lemma_unwinds(h: Heap, frames: Seq<StackFrameView>, index: nat)
    requires
        stacked(h, frames),
        index <= frames.len(),
    ensures
        ({
            let g = unwound(h, frames, index);
            &&& stacked(g, frames.take(index as int))
            &&& g.metas.len() == h.metas.len()
            &&& forall|j: int|
                index <= j < frames.len() ==> g.metas[(
                #[trigger] frames[j]).next as int].assignment is None
            &&& forall|x: int|
                0 <= x < h.metas.len() && (forall|j: int|
                    index <= j < frames.len() ==> (#[trigger] frames[j]).next != x) ==> (
                #[trigger] g.metas[x]).assignment == h.metas[x].assignment
            &&& forall|x: int|
                0 <= x < h.metas.len() && h.metas[x].assignment is None ==> (
                #[trigger] g.metas[x]).assignment is None
        }),
    decreases frames.len(),
{
    if frames.len() > index {
        let last = frames.last().next;
        let h1 = released(h, last);
        lemma_released(h, last);
        let short = frames.drop_last();
        assert(stacked(h1, short));
        lemma_unwinds(h1, short, index);
        let g = unwound(h, frames, index);
        assert(short.take(index as int) =~= frames.take(index as int));
        assert forall|j: int| index <= j < frames.len() implies g.metas[(
        #[trigger] frames[j]).next as int].assignment is None by {
            if j < short.len() {
                assert(short[j] == frames[j]);
            }
        }
        assert forall|x: int|
            0 <= x < h.metas.len() && (forall|j: int|
                index <= j < frames.len() ==> (#[trigger] frames[j]).next != x) implies (
        #[trigger] g.metas[x]).assignment == h.metas[x].assignment by {
            assert(frames[frames.len() - 1].next != x);
            assert forall|j: int| index <= j < short.len() implies (#[trigger] short[j]).next
                != x by {
                assert(short[j] == frames[j]);
            }
            assert(h1.metas[x].assignment == h.metas[x].assignment);
        }
        assert forall|x: int| 0 <= x < h.metas.len() && h.metas[x].assignment is None implies (
        #[trigger] g.metas[x]).assignment is None by {
            assert(h1.metas[x].assignment is None);
        }
    } else {
        assert(frames.take(index as int) =~= frames);
    }
}

/// Going back on the stack passes over the frames that have nothing left to try, and comes to the
/// first one that has, if there is one.
pub proof fn law_resumed(h: Heap, frames: Seq<StackFrameView>, index: nat)
    requires
        stacked(h, frames),
        index <= frames.len(),
    ensures
        ({
            let (g, left, c) = resumed(h, frames, index);
            exists|way: Seq<nat>| #[trigger]
                leads_back(frames, index, way) && comes_to(h, frames, way.last(), g, left, c)
        }),
    decreases index,
{
    let (g, left, c) = resumed(h, frames, index);
    let h1 = unwound(h, frames, index);
    let fs = kept(frames, index);
    lemma_unwinds(h, frames, index);
    assert(fs =~= frames.take(index as int));
    let one = seq![index];
    assert(leads_back(frames, index, one));
    if index == 0 {
        assert(comes_to(h, frames, 0, g, left, c));
        assert(one.last() == 0);
    } else {
        let f = frames[index - 1];
        assert(fs[index - 1] == f);
        if f.domain.len() > 0 {
            lemma_released(h1, f.next);
            assert forall|x: int|
                0 <= x < h.metas.len() && (forall|j: int|
                    0 <= j < frames.len() && index <= j + 1 ==> (#[trigger] frames[j]).next != x)
                implies (#[trigger] g.metas[x]).assignment == h.metas[x].assignment by {
                assert(frames[index - 1].next != x);
                assert forall|j: int| index <= j < frames.len() implies (#[trigger] frames[j]).next
                    != x by {}
                assert(h1.metas[x].assignment == h.metas[x].assignment);
            }
            assert forall|j: int| 0 <= j < frames.len() && index <= j + 1 implies g.metas[(
            #[trigger] frames[j]).next as int].assignment is None by {
                assert(frames[j].next < h.metas.len());
                if index <= j {
                    assert(h1.metas[frames[j].next as int].assignment is None);
                }
            }
            assert(comes_to(h, frames, index, g, left, c));
            assert(one.last() == index);
        } else {
            let q = f.parent as nat;
            assert(q < index);
            law_resumed(h1, fs, q);
            let way = choose|way: Seq<nat>| #[trigger]
                leads_back(fs, q, way) && comes_to(h1, fs, way.last(), g, left, c);
            let all = one + way;
            let i = way.last();
            assert forall|k: int| 0 <= k < all.len() implies (#[trigger] all[k]) <= index && (k
                < all.len() - 1 ==> 0 < all[k] && frames[all[k] - 1].domain.len() == 0 && all[k + 1]
                == frames[all[k] - 1].parent) by {
                if k > 0 {
                    assert(all[k] == way[k - 1]);
                    if k < all.len() - 1 {
                        assert(all[k + 1] == way[k]);
                        assert(fs[way[k - 1] - 1] == frames[way[k - 1] - 1]);
                    }
                }
            }
            assert(leads_back(frames, index, all));
            assert(i <= q) by {
                assert(way[way.len() - 1] <= q);
            }
            assert forall|j: int| 0 <= j < frames.len() && i <= j + 1 implies g.metas[(
            #[trigger] frames[j]).next as int].assignment is None by {
                let x = frames[j].next as int;
                assert(x < h.metas.len());
                if j < index {
                    assert(fs[j] == frames[j]);
                } else if exists|e: int|
                    0 <= e < fs.len() && i <= e + 1 && (#[trigger] fs[e]).next == x {
                } else {
                    assert(h1.metas[x].assignment is None);
                    assert(g.metas[x].assignment == h1.metas[x].assignment);
                }
            }
            assert forall|x: int|
                0 <= x < h.metas.len() && (forall|j: int|
                    0 <= j < frames.len() && i <= j + 1 ==> (#[trigger] frames[j]).next != x)
                implies (#[trigger] g.metas[x]).assignment == h.metas[x].assignment by {
                assert forall|j: int| index <= j < frames.len() implies (#[trigger] frames[j]).next
                    != x by {}
                assert forall|j: int| 0 <= j < fs.len() && i <= j + 1 implies (
                #[trigger] fs[j]).next != x by {
                    assert(fs[j] == frames[j]);
                }
                assert(h1.metas[x].assignment == h.metas[x].assignment);
            }
            assert forall|j: int| 0 <= j < i - 1 implies #[trigger] left[j] == frames[j] by {
                assert(fs[j] == frames[j]);
            }
            if i > 0 {
                assert(fs[i - 1] == frames[i - 1]);
            }
            assert(comes_to(h, frames, i, g, left, c));
            assert(all.last() == i);
        }
    }
}

/// Assigning a variable to a metavariable of the term that is displayed: it has to be an unassigned
/// one in that term. What is displayed next is what comes of the move and of those that are forced
/// after it, if that is asked for. There is nothing to redo, and the options stay as they are.
pub proof fn law_assigned_by_hand(
    s: AppStateView,
    id: usize,
    db: DeBruijnIndex,
    fuel: nat,
    next: u64,
)
    requires
        s.heap.ordered(),
        s.current < s.heap.metas.len(),
    ensures
        assigned_state(s, id, db, fuel, next) matches Ok((t, _)) ==> {
            &&& inside(s.heap, s.current, id)
            &&& id < s.heap.metas.len()
            &&& s.heap.metas[id as int].assignment is None
            &&& exists|turns: Seq<Turn>| #[trigger]
                leads_to(
                    s.current,
                    (Turn { heap: s.heap, meta: id, db, next }),
                    turns,
                    AUTOFILL_LIMIT as nat,
                    s.autofill,
                    fuel,
                    t.heap,
                )
            &&& t.redo.len() == 0
            &&& t.undo.len() == s.undo.len() + 1
            &&& t.current == s.current
            &&& t.autofill == s.autofill
            &&& t.constraints == s.constraints
        },
{
    if let Ok((t, _)) = assigned_state(s, id, db, fuel, next) {
        law_leaves_exact(s.heap, s.current, id);
        let k = AUTOFILL_LIMIT as nat;
        law_play(s.heap, s.current, id, db, k, s.autofill, fuel, next);
        let first = Turn { heap: s.heap, meta: id, db, next };
        let (g, _) = played(s.heap, s.current, id, db, k, s.autofill, fuel, next)->Ok_0;
        assert(t.heap == g);
        let turns = choose|turns: Seq<Turn>| #[trigger]
            leads_to(s.current, first, turns, k, s.autofill, fuel, g);
        assert(leads_to(s.current, first, turns, k, s.autofill, fuel, t.heap));
    }
}

/// A search begins with a metavariable of the type that is sought, which is unassigned and has no
/// constraints. Its context is what the type binds: those variables stand for nothing else, and
/// their types are those that are declared in the type itself. There is one frame, for that
/// metavariable.
pub proof fn law_started(
    h: Heap,
    tb: Rc<TypeBase>,
    bind: usize,
    stats: Map<u64, MetaStats>,
    fuel: nat,
    next: u64,
)
    requires
        h.metas.len() < usize::MAX,
    ensures
        started(h, tb, bind, stats, fuel, next) matches Ok((g, p, _)) ==> {
            let m = g.metas[h.metas.len() as int];
            let outer = h.metas[tb.codomain as int].gamma;
            &&& g.binds == h.binds
            &&& g.metas.len() == h.metas.len() + 1
            &&& forall|x: int| 0 <= x < h.metas.len() ==> #[trigger] g.metas[x] == h.metas[x]
            &&& m.assignment is None
            &&& m.constraints.len() == 0
            &&& m.parent is None
            &&& m.typ == Some(TypeView { base: tb, es: m.gamma, bind })
            &&& m.bindings == h.metas[tb.codomain as int].bindings
            &&& outer[0].bindings.params.len() + outer[0].bindings.lets.len() > 0
                ==> m.gamma.len() == 1 && m.gamma[0].bindings == outer[0].bindings
                && m.gamma[0].entry.params_id == outer[0].entry.params_id
                && m.gamma[0].entry.lets_id == outer[0].entry.lets_id
                && m.gamma[0].entry.subst is None && m.gamma[0].entry.context == Some(
                TypeView { base: tb, es: outer, bind },
            )
            &&& p.meta == h.metas.len()
            &&& p.size == 0
            &&& p.frames == seq![0usize]
            &&& p.arena.len() == 1
            &&& p.arena[0].component.next.meta == p.meta
            &&& p.arena[0].component.unassigned.len() == 0
            &&& p.arena[0].parent is None
            &&& p.arena[0].children is None
        },
{
    if let Ok((g, p, _)) = started(h, tb, bind, stats, fuel, next) {
        let h1 = Heap {
            metas: h.metas.push(typed_meta(h, problem_type(h, tb, bind))),
            ..h
        };
        law_info_counts(h1, h.metas.len() as usize, stats, fuel, next);
    }
}

} // verus!
