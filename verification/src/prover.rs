//! The search: which frame is assigned next, what comes of it, and where to go back to.
//!
//! How promising a frame or a metavariable is, is measured by the caller. The decisions here
//! take such measures as integers that are ordered in the same way.
use crate::backtrack::{
    assigned_count, attached, below, children_cover, children_fit, covered, distinct_metas,
    frame_fits, holds, in_order, law_backtrack_restores, lists_all_leaves, lists_leaves, live,
    retreat, Prover, ProverView,
};
use crate::data::{
    BindId, Entry, EntryView, Meta, MetaId, Node, NodeView, Term, TermView, Type, TypeBase,
    TypeView, ES,
};
use crate::es::appended;
use crate::frames::{candidate_fits, lemma_candidate_grown, populated, sane, Frame, FrameView};
use crate::ids::{Fault, Ids};
use crate::independence::{
    components_of, group, group_views, grouped, grouping, infos_of, involvement,
    law_grouping_sorts, members_of,
    placed, Component, ComponentView, Group, NextInfo,
};
use crate::memory::{Heap, Store};
use crate::meta::{imposed, lemma_imposed_shape, present, shorter};
use crate::search::{Candidate, CandidateView};
use crate::stats::{meta_info, MetaInfo, MetaStats, SearchInfo};
use crate::term::args_of;
use crate::types::typed_meta;
use std::rc::Rc;
use vstd::prelude::*;

verus! {

/// What a step of the search came to.
#[derive(Debug, Copy, Clone, PartialEq, Eq, Structural)]
pub enum Move {
    /// No frame is left to be assigned: the term is a solution.
    Solved,
    /// The frame is to be assigned.
    Assign(usize),
    /// The frame was assigned, and the search goes on below it.
    Deeper,
    /// The search went back to an earlier frame.
    Backtracked,
    /// There is nothing more to try.
    Exhausted,
}

/// The type of the term that is sought: the variables of the problem are the parameters of its
/// type.
pub open spec fn problem_type(h: Heap, tb: Rc<TypeBase>, bind: BindId) -> TypeView {
    let gamma = h.metas[tb.codomain as int].gamma;
    let node = NodeView {
        entry: EntryView {
            subst: None,
            context: Some(TypeView { base: tb, es: gamma, bind }),
            ..gamma[0].entry
        },
        bindings: gamma[0].bindings,
    };
    TypeView { base: tb, es: appended(Seq::empty(), node), bind }
}

/// A search that has yet to begin, for a term of the given type. Also gives the next identifier.
pub open spec fn started(
    h: Heap,
    tb: Rc<TypeBase>,
    bind: BindId,
    stats: Map<u64, MetaStats>,
    fuel: nat,
    next: u64,
) -> Result<(Heap, ProverView, u64), Fault> {
    if tb.codomain >= h.metas.len() || h.metas[tb.codomain as int].gamma.len() == 0 {
        Err(Fault::Malformed)
    } else {
        let m = h.metas.len() as MetaId;
        let h1 = Heap { metas: h.metas.push(typed_meta(h, problem_type(h, tb, bind))), ..h };
        match meta_info(h1, m, stats, fuel, next) {
            Err(f) => Err(f),
            Ok((info, n)) => Ok((h1, root_only(m, info, tb, bind), n)),
        }
    }
}

/// A search with nothing but a root.
pub open spec fn root_only(
    m: MetaId,
    info: MetaInfo,
    tb_ref: Rc<TypeBase>,
    problem_bind: BindId,
) -> ProverView {
    ProverView {
        meta: m,
        arena: seq![
            FrameView {
                domain: Seq::empty(),
                component: ComponentView { next: info, unassigned: Seq::empty() },
                parent: None,
                children: None,
                stats: SearchInfo::none(),
            },
        ],
        frames: seq![0usize],
        size: 0,
        tb_ref,
        problem_bind,
    }
}

/// Whether `i` is the choice among frames with the given margins: the first with the least
/// margin. A margin of `i64::MAX` is none; if there are no others, it is the first frame.
pub open spec fn least_margin(margins: Seq<i64>, i: int) -> bool {
    if forall|j: int| 0 <= j < margins.len() ==> (#[trigger] margins[j]) == i64::MAX {
        i == 0
    } else {
        &&& 0 <= i < margins.len()
        &&& margins[i] < i64::MAX
        &&& forall|j: int| 0 <= j < margins.len() ==> margins[i] <= #[trigger] margins[j]
        &&& forall|j: int| 0 <= j < i ==> margins[i] < #[trigger] margins[j]
    }
}

/// Selects the frame to go on with, by its margin.
pub fn select_frame(margins: &Vec<i64>) -> (r: usize)
    ensures
        least_margin(margins@, r as int),
        margins@.len() > 0 ==> r < margins@.len(),
{
    let mut best: usize = 0;
    let mut best_margin: i64 = i64::MAX;
    let mut i: usize = 0;
    while i < margins.len()
        invariant
            i <= margins@.len(),
            forall|j: int| 0 <= j < i ==> best_margin <= #[trigger] margins@[j],
            if best_margin == i64::MAX {
                best == 0
            } else {
                &&& best < i
                &&& margins@[best as int] == best_margin
                &&& forall|j: int| 0 <= j < best ==> best_margin < #[trigger] margins@[j]
            },
        decreases margins@.len() - i,
    {
        if margins[i] < best_margin {
            best_margin = margins[i];
            best = i;
        }
        i = i + 1;
    }
    assert(best_margin < i64::MAX ==> margins@[best as int] != i64::MAX);
    best
}

/// The frame that `least_margin` chooses.
pub open spec fn selected(margins: Seq<i64>) -> int {
    choose|i: int| least_margin(margins, i)
}

/// Goes back from the frame `f`: to its parent, or nowhere if it has none.
pub open spec fn gave_up(h: Heap, p: ProverView, f: int) -> (Heap, ProverView, Move) {
    match p.arena[f].parent {
        Some(q) => {
            let (g, r) = retreat(h, p, q as int, p.arena.len());
            (g, r, Move::Backtracked)
        },
        None => (h, ProverView { frames: p.frames.push(f as usize), ..p }, Move::Exhausted),
    }
}

/// Takes the frame with the least margin, and tells whether it is to be assigned, or else goes
/// back.
pub open spec fn advanced(h: Heap, p: ProverView, margins: Seq<i64>, max_size: usize) -> (
    Heap,
    ProverView,
    Move,
) {
    if p.frames.len() == 0 {
        (h, p, Move::Solved)
    } else {
        let i = selected(margins);
        let f = p.frames[i];
        let p1 = ProverView { frames: p.frames.update(i, p.frames.last()).drop_last(), ..p };
        if p.size < max_size && p.arena[f as int].domain.len() > 0 {
            (h, p1, Move::Assign(f))
        } else {
            gave_up(h, p1, f as int)
        }
    }
}

/// A frame whose metavariable has just been assigned, and the components that are left.
pub struct Pending {
    pub frame: usize,
    pub groups: Vec<Group>,
}

/// The heap with the candidate assigned.
pub open spec fn with_candidate(h: Heap, m: MetaId, c: CandidateView) -> Heap {
    imposed(
        h,
        c.assignment.changes,
        c.constraints,
        shorter(c.assignment.changes.len(), c.constraints.len()),
    ).with_assignment(m, Some(c.assignment))
}

/// Assigns the candidate, and splits what is left into components. Also gives the next
/// identifier.
pub open spec fn begun(
    h: Heap,
    f: FrameView,
    c: CandidateView,
    stats: Map<u64, MetaStats>,
    fuel: nat,
    next: u64,
) -> Result<(Seq<(Seq<NextInfo>, Seq<MetaInfo>)>, u64), Fault> {
    if h.assigned(f.meta()) {
        Err(Fault::Malformed)
    } else {
        grouped(
            with_candidate(h, f.meta(), c),
            f.component.unassigned + c.assignment.args,
            stats,
            fuel,
            next,
        )
    }
}

/// Whether `groups` holds every metavariable that the assignment of the frame leaves.
pub open spec fn groups_cover(
    h: Heap,
    f: FrameView,
    groups: Seq<(Seq<NextInfo>, Seq<MetaInfo>)>,
) -> bool {
    forall|y: MetaId|
        args_of(h, f.meta()).contains(y) || f.component.unassigned.contains(y)
            ==> #[trigger] in_groups(groups, y)
}

/// Whether `y` is in one of the groups.
pub open spec fn in_groups(groups: Seq<(Seq<NextInfo>, Seq<MetaInfo>)>, y: MetaId) -> bool {
    exists|b: int, k: int|
        0 <= b < groups.len() && 0 <= k < groups[b].0.len() && (#[trigger] groups[b].0[k]).meta == y
}

/// Whether the information of the group belongs to its metavariables, which are in the store.
pub open spec fn group_fits(h: Heap, members: Seq<NextInfo>, infos: Seq<MetaInfo>) -> bool {
    &&& infos.len() == members.len()
    &&& forall|k: int|
        0 <= k < members.len() ==> (#[trigger] infos[k]).meta == members[k].meta && members[k].meta
            < h.metas.len()
}

/// Whether the information of each group belongs to its metavariables, which are in the store.
pub open spec fn groups_fit(h: Heap, groups: Seq<(Seq<NextInfo>, Seq<MetaInfo>)>) -> bool {
    forall|b: int|
        0 <= b < groups.len() ==> group_fits(h, (#[trigger] groups[b]).0, groups[b].1)
}

/// Whether the pending assignment is that of a frame of the search.
pub open spec fn opened(h: Heap, p: ProverView, pending: Pending) -> bool {
    &&& in_order(h, p)
    &&& pending.frame < p.arena.len()
    &&& p.arena[pending.frame as int].children is None
    &&& h.assigned(p.arena[pending.frame as int].meta())
    &&& unshared(p.arena, pending.frame as int)
    &&& pending.frame > 0 ==> attached(p.arena, pending.frame as int)
    &&& groups_cover(h, p.arena[pending.frame as int], group_views(pending.groups@))
    &&& groups_fit(h, group_views(pending.groups@))
}

/// Whether no assigned frame has the metavariable of the frame `f`.
pub open spec fn unshared(arena: Seq<FrameView>, f: int) -> bool {
    forall|x: int|
        0 <= x < arena.len() && x != f && (#[trigger] arena[x]).children is Some
            ==> arena[x].meta() != arena[f].meta()
}

/// Adds a frame below `f` for each of the first `k` components, with every possible assignment
/// to try. Also gives the next identifier.
pub open spec fn spawned(
    h: Heap,
    arena: Seq<FrameView>,
    f: usize,
    cs: Seq<ComponentView>,
    k: int,
    fuel: nat,
    next: u64,
) -> Result<(Heap, Seq<FrameView>, u64), Fault>
    decreases k,
{
    if k <= 0 {
        Ok((h, arena, next))
    } else {
        match spawned(h, arena, f, cs, k - 1, fuel, next) {
            Err(e) => Err(e),
            Ok((h1, a1, n1)) => if h1.assigned(cs[k - 1].next.meta) {
                Err(Fault::Malformed)
            } else {
                match populated(h1, blank_frame(cs[k - 1], Some(f)), fuel, n1) {
                    Err(e) => Err(e),
                    Ok((fr, h2, n2)) => Ok((h2, a1.push(fr), n2)),
                }
            },
        }
    }
}

/// A frame with nothing to try.
pub open spec fn blank_frame(c: ComponentView, parent: Option<usize>) -> FrameView {
    FrameView {
        domain: Seq::empty(),
        component: c,
        parent,
        children: None,
        stats: SearchInfo::none(),
    }
}

/// The frames that are added to `n` frames.
pub open spec fn new_ids(n: nat, k: nat) -> Seq<usize> {
    Seq::new(k, |i: int| (n + i) as usize)
}

/// Completes an assignment: adds the frames for what is left and goes on below, or goes back if
/// the assignment is pruned. Also gives the next identifier.
pub open spec fn finished(
    h: Heap,
    p: ProverView,
    f: usize,
    groups: Seq<(Seq<NextInfo>, Seq<MetaInfo>)>,
    difficulty: Seq<Vec<u64>>,
    pruned: bool,
    fuel: nat,
    next: u64,
) -> Result<(Heap, ProverView, Move, u64), Fault> {
    match components_of(groups, difficulty, groups.len() as int) {
        None => Err(Fault::Malformed),
        Some(cs) => match spawned(h, p.arena, f, cs, cs.len() as int, fuel, next) {
            Err(e) => Err(e),
            Ok((h1, a1, n1)) => if p.size == usize::MAX {
                Err(Fault::Exhausted)
            } else {
                let children = new_ids(p.arena.len(), cs.len());
                let p1 = ProverView {
                    arena: a1.update(
                        f as int,
                        FrameView { children: Some(children), ..a1[f as int] },
                    ),
                    size: (p.size + 1) as usize,
                    ..p
                };
                if pruned {
                    let (h2, p2, m) = gave_up(h1, p1, f as int);
                    Ok((h2, p2, m, n1))
                } else {
                    Ok((h1, ProverView { frames: p1.frames + children, ..p1 }, Move::Deeper, n1))
                }
            },
        },
    }
}

impl Prover {
    /// Creates a new Prover for the specified `Type`.
    pub fn new(
        store: &mut Store,
        tb_ref: Rc<TypeBase>,
        problem_bind: BindId,
        stats: &rustc_hash::FxHashMap<u64, MetaStats>,
        fuel: usize,
        ids: &mut Ids,
    ) -> (r: Result<Prover, Fault>)
        ensures
            started(old(store)@, tb_ref, problem_bind, stats@, fuel as nat, old(ids).next)
                == match r {
                Ok(p) => Ok::<(Heap, ProverView, u64), Fault>(
                    (final(store)@, p@, final(ids).next),
                ),
                Err(f) => Err(f),
            },
            r matches Ok(p) ==> {
                &&& sane(old(store)@) ==> in_order(final(store)@, p@)
                &&& lists_all_leaves(p@, None)
            },
    {
        let ghost h = store@;
        if !store.has_meta(tb_ref.codomain) {
            return Err(Fault::Malformed);
        }
        let gamma: ES = store.meta(tb_ref.codomain).gamma.clone();
        if !gamma.longer_than(0) {
            return Err(Fault::Malformed);
        }
        let entry: &Entry = &gamma.root().entry;
        let node = Node {
            entry: Entry {
                params_id: entry.params_id,
                lets_id: entry.lets_id,
                subst: None,
                context: Some(Type(tb_ref.clone(), gamma.clone(), problem_bind)),
            },
            bindings: gamma.root().bindings.clone(),
        };
        let mut owned_linked = Vec::new();
        let es: ES = ES::new().append(node, &mut owned_linked);
        let typ = Type(tb_ref.clone(), es, problem_bind);
        assert(typ@ == problem_type(h, tb_ref, problem_bind));
        let fresh: Meta = Meta::new(store, typ);
        let meta: MetaId = store.add_meta(fresh);
        let ghost h1 = store@;
        match MetaInfo::new(store, meta, stats, fuel, ids) {
            Err(f) => Err(f),
            Ok(next) => {
                let root = Frame::new(Component { next, unassigned: Vec::new() }, None);
                let mut arena: Vec<Frame> = Vec::new();
                arena.push(root);
                let mut frames: Vec<usize> = Vec::new();
                frames.push(0);
                let p = Prover { meta, arena, frames, size: 0, tb_ref, problem_bind };
                proof {
                    assert(p@ =~= root_only(meta, next, tb_ref, problem_bind));
                    assert(p@.arena[0].meta() == meta);
                    lemma_root_only(h, h1, meta, next, tb_ref, problem_bind);
                }
                Ok(p)
            },
        }
    }

    /// Gets the current (partial) term of the prover.
    pub fn get_term(&self, store: &Store) -> (r: Term)
        requires
            self@.meta < store@.metas.len(),
        ensures
            r@ == (TermView {
                base: self@.meta,
                es: store@.metas[self@.meta as int].gamma,
            }),
    {
        Term { base: self.meta, es: store.meta(self.meta).gamma.clone() }
    }
}

/// A search with nothing but an unassigned root is in order.
proof fn lemma_root_only(
    h: Heap,
    h1: Heap,
    m: MetaId,
    info: MetaInfo,
    tb: Rc<TypeBase>,
    bind: BindId,
)
    requires
        h1.metas.len() == h.metas.len() + 1,
        h1.binds == h.binds,
        forall|x: int| 0 <= x < h.metas.len() ==> #[trigger] h1.metas[x] == h.metas[x],
        h1.metas[h.metas.len() as int].assignment is None,
        m == h.metas.len(),
        info.meta == m,
    ensures
        sane(h) ==> in_order(h1, root_only(m, info, tb, bind)),
        lists_all_leaves(root_only(m, info, tb, bind), None),
{
    let p = root_only(m, info, tb, bind);
    if sane(h) {
        assert forall|x: int|
            0 <= x < h1.metas.len() && (#[trigger] h1.metas[x]).assignment is Some implies present(
            h1,
            h1.metas[x].assignment->0.changes,
        ) by {
            assert(present(h, h.metas[x].assignment->0.changes));
        }
        assert forall|x: int, i: int|
            #![trigger h1.metas[x].assignment->0.args[i]]
            0 <= x < h1.metas.len() && h1.metas[x].assignment is Some && 0 <= i
                < h1.metas[x].assignment->0.args.len() implies x
            < h1.metas[x].assignment->0.args[i] < h1.metas.len() by {
            assert(x < h.metas[x].assignment->0.args[i]);
        }
        assert(frame_fits(h1, p.arena, 0));
        assert(assigned_count(p.arena, 1) == 0) by {
            reveal_with_fuel(assigned_count, 2);
        }
    }
    assert(p.frames[0] == 0);
    assert(p.frames.contains(0));
    assert(live(p.arena, 0));
}

proof fn lemma_selected(margins: Seq<i64>, i: int)
    requires
        least_margin(margins, i),
    ensures
        selected(margins) == i,
{
    let j = selected(margins);
    assert(least_margin(margins, j));
    if i < j {
        assert(margins[j] < margins[i]);
    } else if j < i {
        assert(margins[i] < margins[j]);
    }
}

/// Taking a frame from the list leaves a hole.
pub proof fn lemma_taken(p: ProverView, i: int)
    requires
        0 <= i < p.frames.len(),
        forall|k: int| 0 <= k < p.frames.len() ==> (#[trigger] p.frames[k]) < p.arena.len(),
    ensures
        ({
            let f = p.frames[i];
            let p1 = ProverView { frames: p.frames.update(i, p.frames.last()).drop_last(), ..p };
            &&& forall|k: int| 0 <= k < p1.frames.len() ==> (#[trigger] p1.frames[k]) < p.arena.len()
            &&& lists_all_leaves(p, None) ==> lists_all_leaves(p1, Some(f))
        }),
{
    let f = p.frames[i];
    let p1 = ProverView { frames: p.frames.update(i, p.frames.last()).drop_last(), ..p };
    let last = p.frames.len() - 1;
    assert forall|k: int| 0 <= k < p1.frames.len() implies #[trigger] p1.frames[k] == p.frames[if k
        == i {
        last
    } else {
        k
    }] by {}
    if lists_all_leaves(p, None) {
        assert(live(p.arena, p.frames[i] as int));
        assert forall|a: int, b: int|
            0 <= a < p1.frames.len() && 0 <= b < p1.frames.len() && a != b implies p1.frames[a]
            != p1.frames[b] by {}
        assert(!p1.frames.contains(f)) by {
            if p1.frames.contains(f) {
                let k = choose|k: int| 0 <= k < p1.frames.len() && p1.frames[k] == f;
                assert(p.frames[if k == i {
                    last
                } else {
                    k
                }] == p.frames[i]);
            }
        }
        assert forall|k: int| 0 <= k < p1.frames.len() implies live(
            p1.arena,
            (#[trigger] p1.frames[k]) as int,
        ) && p1.arena[p1.frames[k] as int].children is None by {
            let j = if k == i {
                last
            } else {
                k
            };
            assert(live(p.arena, p.frames[j] as int));
        }
        assert forall|x: int|
            0 <= x < p.arena.len() && #[trigger] live(p1.arena, x) && p1.arena[x].children
                is None implies x as usize == f || p1.frames.contains(x as usize) by {
            assert(live(p.arena, x));
            assert(p.frames.contains(x as usize));
            let k = choose|k: int| 0 <= k < p.frames.len() && p.frames[k] == x as usize;
            if k != i {
                if k == last {
                    assert(p1.frames[i] == x as usize);
                } else {
                    assert(p1.frames[k] == x as usize);
                }
            }
        }
    }
}

/// Going back from the hole, or from a frame whose children are not listed, lists all leaves.
pub proof fn lemma_gave_up(h: Heap, p: ProverView, f: int)
    requires
        in_order(h, p),
        0 <= f < p.arena.len(),
    ensures
        ({
            let (g, q, m) = gave_up(h, p, f);
            &&& m == Move::Backtracked || m == Move::Exhausted
            &&& m == Move::Exhausted <==> f == 0
            &&& in_order(g, q)
            &&& lists_all_leaves(p, Some(f as usize)) ==> lists_all_leaves(q, None)
            &&& (f > 0 && live(p.arena, f) && lists_leaves(p) && (forall|x: int|
                0 <= x < p.arena.len() && #[trigger] live(p.arena, x) && p.arena[x].children is None
                    ==> below(p.arena, x, f) || p.frames.contains(x as usize)))
                ==> lists_all_leaves(q, None)
        }),
{
    assert(frame_fits(h, p.arena, f));
    let (g, q, m) = gave_up(h, p, f);
    match p.arena[f].parent {
        Some(up) => {
            let u = up as int;
            crate::backtrack::lemma_retreat(h, p, u, p.arena.len());
            assert(below(p.arena, f, u));
            if lists_all_leaves(p, Some(f as usize)) {
                assert(live(p.arena, f));
                assert(live(p.arena, u));
                law_backtrack_restores(h, p, u);
            }
            if live(p.arena, f) && lists_leaves(p) && (forall|x: int|
                0 <= x < p.arena.len() && #[trigger] live(p.arena, x) && p.arena[x].children is None
                    ==> below(p.arena, x, f) || p.frames.contains(x as usize)) {
                assert(live(p.arena, u));
                assert forall|x: int|
                    0 <= x < p.arena.len() && #[trigger] live(p.arena, x) && p.arena[x].children
                        is None implies below(p.arena, x, u) || p.frames.contains(
                    x as usize,
                ) by {
                    if below(p.arena, x, f) {
                        crate::backtrack::lemma_below_trans(p.arena, x, f, u);
                    }
                }
                law_backtrack_restores(h, p, u);
            }
        },
        None => {
            assert(f == 0);
            assert forall|x: int| 0 <= x < q.arena.len() implies #[trigger] frame_fits(
                g,
                q.arena,
                x,
            ) by {
                assert(frame_fits(h, p.arena, x));
            }
            assert forall|k: int| 0 <= k < q.frames.len() implies (#[trigger] q.frames[k])
                < q.arena.len() by {
                if k < p.frames.len() {
                    assert(p.frames[k] < p.arena.len());
                }
            }
            if lists_all_leaves(p, Some(0)) {
                assert forall|a: int, b: int|
                    0 <= a < q.frames.len() && 0 <= b < q.frames.len() && a != b implies q.frames[a]
                    != q.frames[b] by {
                    if a < p.frames.len() {
                        assert(p.frames.contains(p.frames[a]));
                    }
                    if b < p.frames.len() {
                        assert(p.frames.contains(p.frames[b]));
                    }
                }
                assert forall|k: int| 0 <= k < q.frames.len() implies live(
                    q.arena,
                    (#[trigger] q.frames[k]) as int,
                ) && q.arena[q.frames[k] as int].children is None by {
                    if k < p.frames.len() {
                        assert(live(p.arena, p.frames[k] as int));
                    }
                }
                assert forall|x: int|
                    0 <= x < q.arena.len() && #[trigger] live(q.arena, x) && q.arena[x].children
                        is None implies q.frames.contains(x as usize) by {
                    assert(live(p.arena, x));
                    if x == 0 {
                        assert(q.frames[p.frames.len() as int] == 0);
                    } else {
                        let k = choose|k: int|
                            0 <= k < p.frames.len() && p.frames[k] == x as usize;
                        assert(q.frames[k] == x as usize);
                    }
                }
            }
        },
    }
}

/// What is in order stays so when frames are taken off the list.
pub proof fn lemma_relisted(h: Heap, p: ProverView, frames: Seq<usize>)
    requires
        in_order(h, p),
        forall|k: int| 0 <= k < frames.len() ==> (#[trigger] frames[k]) < p.arena.len(),
    ensures
        in_order(h, ProverView { frames, ..p }),
{
    let q = ProverView { frames, ..p };
    assert forall|x: int| 0 <= x < q.arena.len() implies #[trigger] frame_fits(
        h,
        q.arena,
        x,
    ) by {
        assert(frame_fits(h, p.arena, x));
    }
}

impl Prover {
    /// Goes back from the frame `f`.
    pub fn give_up(&mut self, store: &mut Store, f: usize) -> (r: Move)
        requires
            in_order(old(store)@, old(self)@),
            f < old(self)@.arena.len(),
        ensures
            (final(store)@, final(self)@, r) == gave_up(old(store)@, old(self)@, f as int),
            in_order(final(store)@, final(self)@),
    {
        proof {
            lemma_gave_up(store@, self@, f as int);
            assert(frame_fits(store@, self@.arena, f as int));
        }
        match self.arena[f].parent {
            Some(parent) => {
                self.backtrack(store, parent);
                Move::Backtracked
            },
            None => {
                self.frames.push(f);
                Move::Exhausted
            },
        }
    }

    /// One step of the search: takes the frame with the least margin. If it can be assigned, it
    /// is the caller's to assign; otherwise the search goes back.
    pub fn advance(&mut self, store: &mut Store, margins: &Vec<i64>, max_size: usize) -> (r: Move)
        requires
            in_order(old(store)@, old(self)@),
            margins@.len() == old(self)@.frames.len(),
        ensures
            (final(store)@, final(self)@, r) == advanced(
                old(store)@,
                old(self)@,
                margins@,
                max_size,
            ),
            in_order(final(store)@, final(self)@),
            r matches Move::Assign(f) ==> f < final(self)@.arena.len(),
            lists_all_leaves(old(self)@, None) ==> lists_all_leaves(
                final(self)@,
                match r {
                    Move::Assign(f) => Some(f),
                    _ => None,
                },
            ),
    {
        if self.frames.len() == 0 {
            return Move::Solved;
        }
        let ghost p = self@;
        let at: usize = select_frame(margins);
        proof {
            lemma_selected(margins@, at as int);
            lemma_taken(p, at as int);
        }
        let f: usize = self.frames.swap_remove(at);
        proof {
            assert(self@.frames == p.frames.update(at as int, p.frames.last()).drop_last());
            assert(self@ == (ProverView { frames: self@.frames, ..p }));
            lemma_relisted(store@, p, self@.frames);
            assert(p.frames[at as int] < p.arena.len());
            lemma_gave_up(store@, self@, f as int);
        }
        if self.size < max_size && self.arena[f].domain.len() > 0 {
            return Move::Assign(f);
        }
        self.give_up(store, f)
    }

    /// Takes the next candidate of the frame.
    pub fn pop_candidate(&mut self, f: usize) -> (r: Option<Candidate>)
        requires
            f < old(self)@.arena.len(),
            forall|k: int|
                0 <= k < old(self)@.frames.len() ==> (#[trigger] old(self)@.frames[k]) < old(
                    self,
                )@.arena.len(),
        ensures
            match r {
                Some(c) => {
                    &&& old(self)@.arena[f as int].domain.len() > 0
                    &&& c@ == old(self)@.arena[f as int].domain.last()
                    &&& final(self)@ == popped(old(self)@, f as int)
                },
                None => old(self)@.arena[f as int].domain.len() == 0 && final(self)@ == old(
                    self,
                )@,
            },
            forall|h: Heap| in_order(h, old(self)@) ==> #[trigger] in_order(h, final(self)@),
            forall|h: Heap, c: CandidateView|
                in_order(h, old(self)@) && (r matches Some(x) && x@ == c)
                    ==> #[trigger] candidate_fits(h, old(self)@.arena[f as int].meta(), c),
            forall|hole: Option<usize>| #[trigger]
                lists_all_leaves(old(self)@, hole) ==> lists_all_leaves(final(self)@, hole),
    {
        let ghost p = self@;
        let r = self.arena[f].domain.pop();
        proof {
            let q = self@;
            if r is Some {
                assert(q.arena[f as int].domain =~= p.arena[f as int].domain.drop_last());
                assert(q.arena =~= popped(p, f as int).arena);
                assert(r->0@ == p.arena[f as int].domain.last());
            } else {
                assert(q.arena =~= p.arena);
            }
            assert forall|h: Heap| in_order(h, p) implies #[trigger] in_order(h, q) by {
                lemma_domain_changed(h, p, q);
            }
            assert forall|h: Heap, c: CandidateView|
                in_order(h, p) && (r matches Some(x) && x@ == c) implies #[trigger] candidate_fits(
                h,
                p.arena[f as int].meta(),
                c,
            ) by {
                assert(frame_fits(h, p.arena, f as int));
                assert(p.arena[f as int].domain[p.arena[f as int].domain.len() - 1] == c);
            }
            assert forall|hole: Option<usize>| #[trigger]
                lists_all_leaves(p, hole) implies lists_all_leaves(q, hole) by {
                lemma_same_leaves(p, q, hole);
            }
        }
        r
    }
}

/// The search without the last candidate of the frame `f`.
pub open spec fn popped(p: ProverView, f: int) -> ProverView {
    ProverView {
        arena: p.arena.update(
            f,
            FrameView { domain: p.arena[f].domain.drop_last(), ..p.arena[f] },
        ),
        ..p
    }
}

/// Whether the frames differ in what is recorded of them and in their domains only, and those of
/// `b` hold nothing new.
pub open spec fn fewer_candidates(a: Seq<FrameView>, b: Seq<FrameView>) -> bool {
    &&& a.len() == b.len()
    &&& forall|x: int|
        0 <= x < a.len() ==> (#[trigger] b[x]) == (FrameView {
            domain: b[x].domain,
            stats: b[x].stats,
            ..a[x]
        }) && b[x].domain.len() <= a[x].domain.len() && forall|k: int|
            0 <= k < b[x].domain.len() ==> b[x].domain[k] == a[x].domain[k]
}

pub proof fn lemma_domain_changed(h: Heap, p: ProverView, q: ProverView)
    requires
        in_order(h, p),
        q == (ProverView { arena: q.arena, ..p }),
        fewer_candidates(p.arena, q.arena),
    ensures
        in_order(h, q),
{
    assert forall|x: int| 0 <= x < q.arena.len() implies #[trigger] frame_fits(
        h,
        q.arena,
        x,
    ) by {
        assert(frame_fits(h, p.arena, x));
        assert(q.arena[x] == (FrameView {
            domain: q.arena[x].domain,
            stats: q.arena[x].stats,
            ..p.arena[x]
        }));
        let fr = q.arena[x];
        assert forall|j: int| 0 <= j < fr.domain.len() implies candidate_fits(
            h,
            fr.meta(),
            #[trigger] fr.domain[j],
        ) by {
            assert(candidate_fits(h, fr.meta(), p.arena[x].domain[j]));
        }
        if let Some(ds) = fr.children {
            assert(children_fit(q.arena, x, ds)) by {
                assert forall|i: int| 0 <= i < ds.len() implies x < (#[trigger] ds[i])
                    < q.arena.len() && q.arena[ds[i] as int].parent == Some(x as usize) by {
                    assert(p.arena[ds[i] as int].parent == Some(x as usize));
                    assert(q.arena[ds[i] as int] == (FrameView {
                        domain: q.arena[ds[i] as int].domain,
                        stats: q.arena[ds[i] as int].stats,
                        ..p.arena[ds[i] as int]
                    }));
                }
            }
            assert(children_cover(h, q.arena, fr, ds)) by {
                assert forall|y: MetaId|
                    args_of(h, fr.meta()).contains(y) || fr.component.unassigned.contains(
                        y,
                    ) implies #[trigger] covered(q.arena, ds, y) by {
                    assert(covered(p.arena, ds, y));
                    let i = choose|i: int|
                        0 <= i < ds.len() && holds(p.arena[#[trigger] ds[i] as int].component, y);
                    assert(p.arena[ds[i] as int].parent == Some(x as usize));
                    assert(q.arena[ds[i] as int] == (FrameView {
                        domain: q.arena[ds[i] as int].domain,
                        stats: q.arena[ds[i] as int].stats,
                        ..p.arena[ds[i] as int]
                    }));
                    assert(holds(q.arena[ds[i] as int].component, y));
                }
            }
            if x > 0 {
                let up = p.arena[x].parent->0 as int;
                assert(q.arena[up] == (FrameView {
                    domain: q.arena[up].domain,
                    stats: q.arena[up].stats,
                    ..p.arena[up]
                }));
                assert(attached(q.arena, x));
            }
        }
    }
    assert(q.arena[0] == (FrameView {
        domain: q.arena[0].domain,
        stats: q.arena[0].stats,
        ..p.arena[0]
    }));
    assert(distinct_metas(q.arena)) by {
        assert forall|x: int, y: int|
            0 <= x < q.arena.len() && 0 <= y < q.arena.len() && x != y && (
            #[trigger] q.arena[x]).children is Some && (#[trigger] q.arena[y]).children
                is Some implies q.arena[x].meta() != q.arena[y].meta() by {
            assert(q.arena[x] == (FrameView {
                domain: q.arena[x].domain,
                stats: q.arena[x].stats,
                ..p.arena[x]
            }));
            assert(q.arena[y] == (FrameView {
                domain: q.arena[y].domain,
                stats: q.arena[y].stats,
                ..p.arena[y]
            }));
            assert(p.arena[x].children is Some && p.arena[y].children is Some);
        }
    }
    lemma_same_count(p.arena, q.arena, q.arena.len() as int);
}

pub proof fn lemma_same_count(a: Seq<FrameView>, b: Seq<FrameView>, k: int)
    requires
        0 <= k <= a.len() <= b.len(),
        forall|x: int| 0 <= x < k ==> (#[trigger] b[x]).children is Some == a[x].children is Some,
    ensures
        assigned_count(a, k) == assigned_count(b, k),
    decreases k,
{
    if k > 0 {
        lemma_same_count(a, b, k - 1);
        assert(b[k - 1].children is Some == a[k - 1].children is Some);
    }
}

proof fn lemma_same_live(a: Seq<FrameView>, b: Seq<FrameView>, x: int)
    requires
        0 <= x < a.len() <= b.len(),
        forall|z: int|
            0 <= z < a.len() ==> (#[trigger] b[z]).parent == a[z].parent && (z < x ==> b[z].children
                == a[z].children),
    ensures
        live(a, x) == live(b, x),
    decreases x,
{
    if x != 0 {
        assert(b[x].parent == a[x].parent);
        if let Some(up) = a[x].parent {
            if up < x {
                assert(b[up as int].children == a[up as int].children);
                lemma_same_live(a, b, up as int);
                assert(attached(a, x) == attached(b, x));
            }
        }
    }
}

pub proof fn lemma_same_leaves(p: ProverView, q: ProverView, hole: Option<usize>)
    requires
        q == (ProverView { arena: q.arena, ..p }),
        p.arena.len() == q.arena.len(),
        forall|x: int|
            0 <= x < p.arena.len() ==> (#[trigger] q.arena[x]).parent == p.arena[x].parent
                && q.arena[x].children == p.arena[x].children,
        lists_all_leaves(p, hole),
        forall|k: int| 0 <= k < p.frames.len() ==> (#[trigger] p.frames[k]) < p.arena.len(),
    ensures
        lists_all_leaves(q, hole),
{
    assert forall|x: int| 0 <= x < p.arena.len() implies #[trigger] live(q.arena, x) == live(
        p.arena,
        x,
    ) by {
        lemma_same_live(p.arena, q.arena, x);
    }
    assert forall|k: int| 0 <= k < q.frames.len() implies live(
        q.arena,
        (#[trigger] q.frames[k]) as int,
    ) && q.arena[q.frames[k] as int].children is None by {
        assert(live(p.arena, p.frames[k] as int));
        assert(live(q.arena, p.frames[k] as int) == live(p.arena, p.frames[k] as int));
    }
    assert forall|x: int|
        0 <= x < q.arena.len() && #[trigger] live(q.arena, x) && q.arena[x].children
            is None implies hole == Some(x as usize) || q.frames.contains(x as usize) by {
        assert(live(p.arena, x));
    }
}

/// Whether `g` is `h` but for what does not bear on the assignments, and for further unassigned
/// metavariables.
pub open spec fn same_assignments(h: Heap, g: Heap) -> bool {
    &&& h.metas.len() <= g.metas.len()
    &&& forall|x: int|
        0 <= x < h.metas.len() ==> (#[trigger] g.metas[x]).assignment == h.metas[x].assignment
    &&& forall|x: int|
        h.metas.len() <= x < g.metas.len() ==> (#[trigger] g.metas[x]).assignment is None
}

pub proof fn lemma_sane_kept(h: Heap, g: Heap)
    requires
        sane(h),
        same_assignments(h, g),
    ensures
        sane(g),
{
    assert forall|x: int|
        0 <= x < g.metas.len() && (#[trigger] g.metas[x]).assignment is Some implies present(
        g,
        g.metas[x].assignment->0.changes,
    ) by {
        assert(present(h, h.metas[x].assignment->0.changes));
    }
    assert forall|x: int, i: int|
        #![trigger g.metas[x].assignment->0.args[i]]
        0 <= x < g.metas.len() && g.metas[x].assignment is Some && 0 <= i
            < g.metas[x].assignment->0.args.len() implies x < g.metas[x].assignment->0.args[i]
        < g.metas.len() by {
        assert(g.metas[x].assignment == h.metas[x].assignment);
        assert(x < h.metas[x].assignment->0.args[i]);
    }
}

/// What is in order stays so in a heap in which the assigned frames have the same assignments.
pub proof fn lemma_heap_changed(h: Heap, g: Heap, p: ProverView)
    requires
        in_order(h, p),
        sane(g),
        h.metas.len() <= g.metas.len(),
        forall|x: int|
            0 <= x < p.arena.len() && (#[trigger] p.arena[x]).children is Some
                ==> g.metas[p.arena[x].meta() as int].assignment
                == h.metas[p.arena[x].meta() as int].assignment,
    ensures
        in_order(g, p),
{
    assert forall|x: int| 0 <= x < p.arena.len() implies #[trigger] frame_fits(
        g,
        p.arena,
        x,
    ) by {
        assert(frame_fits(h, p.arena, x));
        let fr = p.arena[x];
        assert forall|j: int| 0 <= j < fr.domain.len() implies candidate_fits(
            g,
            fr.meta(),
            #[trigger] fr.domain[j],
        ) by {
            lemma_candidate_grown(h, g, fr.meta(), fr.domain[j]);
        }
        if let Some(ds) = fr.children {
            assert(args_of(g, fr.meta()) == args_of(h, fr.meta()));
            assert(children_cover(g, p.arena, fr, ds));
        }
    }
}

/// The heap after a candidate has been assigned.
pub proof fn lemma_with_candidate(h: Heap, m: MetaId, c: CandidateView)
    requires
        sane(h),
        m < h.metas.len(),
        candidate_fits(h, m, c),
    ensures
        ({
            let g = with_candidate(h, m, c);
            &&& sane(g)
            &&& g.binds == h.binds
            &&& g.metas.len() == h.metas.len()
            &&& g.metas[m as int].assignment == Some(c.assignment)
            &&& forall|x: int|
                0 <= x < h.metas.len() && x != m ==> (#[trigger] g.metas[x]).assignment
                    == h.metas[x].assignment
        }),
{
    let n = c.assignment.changes.len();
    lemma_imposed_shape(h, c.assignment.changes, c.constraints, n);
    let g = with_candidate(h, m, c);
    assert forall|x: int|
        0 <= x < g.metas.len() && (#[trigger] g.metas[x]).assignment is Some implies present(
        g,
        g.metas[x].assignment->0.changes,
    ) by {
        if x != m {
            assert(g.metas[x].assignment == h.metas[x].assignment);
            assert(present(h, h.metas[x].assignment->0.changes));
        } else {
            assert(present(h, c.assignment.changes));
        }
    }
    assert forall|x: int, i: int|
        #![trigger g.metas[x].assignment->0.args[i]]
        0 <= x < g.metas.len() && g.metas[x].assignment is Some && 0 <= i
            < g.metas[x].assignment->0.args.len() implies x < g.metas[x].assignment->0.args[i]
        < g.metas.len() by {
        if x != m {
            assert(g.metas[x].assignment == h.metas[x].assignment);
            assert(x < h.metas[x].assignment->0.args[i]);
        } else {
            assert(m < c.assignment.args[i]);
        }
    }
}

proof fn lemma_infos_metas(
    h: Heap,
    members: Seq<NextInfo>,
    k: int,
    stats: Map<u64, MetaStats>,
    fuel: nat,
    next: u64,
)
    requires
        0 <= k <= members.len(),
    ensures
        infos_of(h, members, k, stats, fuel, next) matches Ok((s, _)) ==> s.len() == k && forall|
            j: int,
        |
            0 <= j < k ==> (#[trigger] s[j]).meta == members[j].meta,
    decreases k,
{
    if k > 0 {
        lemma_infos_metas(h, members, k - 1, stats, fuel, next);
    }
}

proof fn lemma_buckets_metas(
    h: Heap,
    buckets: Seq<Seq<NextInfo>>,
    k: int,
    stats: Map<u64, MetaStats>,
    fuel: nat,
    next: u64,
)
    requires
        0 <= k <= buckets.len(),
    ensures
        crate::independence::buckets_infos(h, buckets, k, stats, fuel, next) matches Ok((s, _))
            ==> s.len() == k && forall|b: int|
            0 <= b < k ==> (#[trigger] s[b]).len() == buckets[b].len() && forall|j: int|
                0 <= j < s[b].len() ==> (#[trigger] s[b][j]).meta == buckets[b][j].meta,
    decreases k,
{
    if k > 0 {
        lemma_buckets_metas(h, buckets, k - 1, stats, fuel, next);
        if let Ok((_, n)) = crate::independence::buckets_infos(
            h,
            buckets,
            k - 1,
            stats,
            fuel,
            next,
        ) {
            lemma_infos_metas(h, buckets[k - 1], buckets[k - 1].len() as int, stats, fuel, n);
        }
    }
}

/// The groups hold every metavariable that was split.
proof fn lemma_grouped(
    h: Heap,
    unassigned: Seq<MetaId>,
    stats: Map<u64, MetaStats>,
    fuel: nat,
    next: u64,
)
    ensures
        grouped(h, unassigned, stats, fuel, next) matches Ok((groups, _)) ==> {
            &&& forall|y: MetaId| unassigned.contains(y) ==> #[trigger] in_groups(groups, y)
            &&& groups_fit(h, groups)
        },
{
    reveal(grouped);
    if let Ok((groups, _)) = grouped(h, unassigned, stats, fuel, next) {
        let g = grouping(h, unassigned, involvement(h, unassigned), unassigned.len() as int);
        let buckets = members_of(h, unassigned, g);
        law_grouping_sorts(h, unassigned, involvement(h, unassigned), unassigned.len() as int);
        lemma_buckets_metas(h, buckets, buckets.len() as int, stats, fuel, next);
        assert forall|y: MetaId| unassigned.contains(y) implies #[trigger] in_groups(
            groups,
            y,
        ) by {
            let i = choose|i: int| 0 <= i < unassigned.len() && unassigned[i] == y;
            assert(placed(g, i));
            let (b, x) = choose|b: int, x: int|
                0 <= b < g.len() && 0 <= x < g[b].len() && #[trigger] g[b][x] == i;
            assert(groups[b].0 == buckets[b]);
            assert(groups[b].0[x].meta == y);
        }
        assert forall|b: int| 0 <= b < groups.len() implies group_fits(
            h,
            (#[trigger] groups[b]).0,
            groups[b].1,
        ) by {
            assert(groups[b].0 == buckets[b]);
            assert forall|k: int| 0 <= k < groups[b].0.len() implies (
            #[trigger] groups[b].1[k]).meta == groups[b].0[k].meta && groups[b].0[k].meta
                < h.metas.len() by {
                let i = g[b][k];
                assert(0 <= i < unassigned.len());
                assert(crate::independence::involvable(h, unassigned[i]));
                assert(groups[b].0[k].meta == unassigned[i]);
            }
        }
    }
}

impl Prover {
    /// Assigns the candidate to the metavariable of the frame `f`, and splits what is left into
    /// components.
    pub fn begin(
        &self,
        store: &mut Store,
        f: usize,
        element: Candidate,
        stats: &rustc_hash::FxHashMap<u64, MetaStats>,
        fuel: usize,
        ids: &mut Ids,
    ) -> (r: Result<Pending, Fault>)
        requires
            in_order(old(store)@, self@),
            f < self@.arena.len(),
            self@.arena[f as int].children is None,
            f > 0 ==> attached(self@.arena, f as int),
            candidate_fits(old(store)@, self@.arena[f as int].meta(), element@),
        ensures
            begun(
                old(store)@,
                self@.arena[f as int],
                element@,
                stats@,
                fuel as nat,
                old(ids).next,
            ) == match r {
                Ok(pending) => Ok::<(Seq<(Seq<NextInfo>, Seq<MetaInfo>)>, u64), Fault>(
                    (group_views(pending.groups@), final(ids).next),
                ),
                Err(e) => Err(e),
            },
            final(store)@ == if old(store)@.assigned(self@.arena[f as int].meta()) {
                old(store)@
            } else {
                with_candidate(old(store)@, self@.arena[f as int].meta(), element@)
            },
            r matches Ok(pending) ==> pending.frame == f && opened(final(store)@, self@, pending),
    {
        let ghost h = store@;
        let ghost p = self@;
        let ghost fr = p.arena[f as int];
        proof {
            assert(frame_fits(h, p.arena, f as int));
        }
        let m: MetaId = self.arena[f].component.next.meta;
        if store.meta(m).assignment.is_some() {
            return Err(Fault::Malformed);
        }
        let ghost c = element@;
        let mut unassigned: Vec<MetaId> = crate::meta::copy_ids(
            &self.arena[f].component.unassigned,
        );
        let mut args: Vec<MetaId> = crate::meta::copy_ids(&element.assignment.args);
        unassigned.append(&mut args);
        assert(unassigned@ == fr.component.unassigned + c.assignment.args);
        Meta::assign(store, m, element.assignment, element.constraints);
        let ghost h1 = store@;
        proof {
            assert(h1 == with_candidate(h, m, c));
            lemma_with_candidate(h, m, c);
            assert forall|x: int|
                0 <= x < p.arena.len() && (#[trigger] p.arena[x]).children is Some implies p.arena[x].meta()
                != m && h1.metas[p.arena[x].meta() as int].assignment
                == h.metas[p.arena[x].meta() as int].assignment by {
                assert(frame_fits(h, p.arena, x));
            }
            lemma_heap_changed(h, h1, p);
        }
        match group(store, &unassigned, stats, fuel, ids) {
            Err(e) => Err(e),
            Ok(groups) => {
                let pending = Pending { frame: f, groups };
                proof {
                    let gs = group_views(groups@);
                    lemma_grouped(h1, unassigned@, stats@, fuel as nat, old(ids).next);
                    assert(grouped(h1, unassigned@, stats@, fuel as nat, old(ids).next)->Ok_0.0 == gs);
                    assert(forall|y: MetaId|
                        unassigned@.contains(y) ==> #[trigger] in_groups(gs, y));
                    assert(groups_cover(h1, fr, gs)) by {
                        assert forall|y: MetaId|
                            args_of(h1, fr.meta()).contains(y)
                                || fr.component.unassigned.contains(
                                y,
                            ) implies #[trigger] in_groups(gs, y) by {
                            let left = fr.component.unassigned;
                            if left.contains(y) {
                                let i = choose|i: int| 0 <= i < left.len() && left[i] == y;
                                assert(unassigned@[i] == y);
                            } else {
                                let i = choose|i: int|
                                    0 <= i < c.assignment.args.len() && c.assignment.args[i] == y;
                                assert(unassigned@[left.len() + i] == y);
                            }
                            assert(unassigned@.contains(y));
                        }
                    }
                }
                Ok(pending)
            },
        }
    }
}

} // verus!
