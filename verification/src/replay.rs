//! Starting a search over, and copying a search onto fresh metavariables.
use crate::backtrack::{
    assigned_count, attached, frame_fits, in_order, lemma_count_update, lemma_position,
    lists_all_leaves, live, position, retreat, without, Prover, ProverView,
};
use crate::data::{nodes, Linked, Meta, MetaId, Type, ES};
use crate::expansion::deepened;
use crate::frames::{
    candidate_fits, grown, lemma_attempt_grown, lemma_grown_sane, populated, sane, with_rigid,
    Frame, FrameView,
};
use crate::ids::{Fault, Ids};
use crate::independence::{group_views, rated, Component, NextInfo};
use crate::index::DeBruijnIndex;
use crate::memory::{Heap, Store};
use crate::prover::{
    begun, finished, lemma_domain_changed, lemma_heap_changed, lemma_relisted, lemma_same_count,
    lemma_same_leaves, lemma_sane_kept, lemma_taken, lemma_with_candidate, opened, root_only,
    same_assignments, with_candidate, Pending,
};
use crate::search::{attempt, law_test_frame, Candidate, CandidateView};
use crate::stats::{meta_info, MetaInfo, MetaStats};
use crate::types::typed_meta;
use std::rc::Rc;
use vstd::prelude::*;

verus! {

/// The search with its root to be assigned anew. Also gives the next identifier.
pub open spec fn restarted(h: Heap, p: ProverView, fuel: nat, next: u64) -> Result<
    (Heap, ProverView, u64),
    Fault,
> {
    let (h1, p1) = unassigned_root(h, p);
    match populated(h1, p1.arena[0], fuel, next) {
        Err(e) => Err(e),
        Ok((root, g, n)) => Ok(
            (g, ProverView { arena: seq![root], frames: seq![0usize], size: 0, ..p1 }, n),
        ),
    }
}

/// The search with the root taken back if it is assigned.
pub open spec fn unassigned_root(h: Heap, p: ProverView) -> (Heap, ProverView) {
    if p.arena[0].children is Some {
        retreat(h, p, 0, p.arena.len())
    } else {
        (h, p)
    }
}

/// An unassigned root by itself is in order.
proof fn lemma_single(h: Heap, p: ProverView)
    requires
        sane(h),
        p.arena.len() == 1,
        p.arena[0].parent is None,
        p.arena[0].children is None,
        p.arena[0].meta() == p.meta,
        p.meta < h.metas.len(),
        p.arena[0].component.unassigned.len() == 0,
        forall|k: int|
            0 <= k < p.arena[0].domain.len() ==> candidate_fits(
                h,
                p.meta,
                #[trigger] p.arena[0].domain[k],
            ),
        p.frames == seq![0usize] || p.frames.len() == 0,
    ensures
        in_order(h, p),
        p.frames == seq![0usize] ==> lists_all_leaves(p, None),
{
    assert(frame_fits(h, p.arena, 0));
    assert(assigned_count(p.arena, 1) == 0) by {
        reveal_with_fuel(assigned_count, 2);
    }
    assert(live(p.arena, 0));
    if p.frames == seq![0usize] {
        assert(p.frames[0] == 0);
        assert(p.frames.contains(0));
    }
}

proof fn lemma_rigid_sane(h: Heap, m: MetaId, flag: bool)
    requires
        sane(h),
        m < h.metas.len(),
    ensures
        sane(with_rigid(h, m, flag)),
{
    lemma_sane_kept(h, with_rigid(h, m, flag));
}

impl Prover {
    /// Takes everything back, and goes on from an unassigned root with every possible assignment to
    /// try.
    pub fn restart(&mut self, store: &mut Store, fuel: usize, ids: &mut Ids) -> (r: Result<
        (),
        Fault,
    >)
        requires
            in_order(old(store)@, old(self)@),
        ensures
            restarted(old(store)@, old(self)@, fuel as nat, old(ids).next) == match r {
                Ok(()) => Ok::<(Heap, ProverView, u64), Fault>(
                    (final(store)@, final(self)@, final(ids).next),
                ),
                Err(e) => Err(e),
            },
            in_order(final(store)@, final(self)@),
            r is Ok ==> lists_all_leaves(final(self)@, None),
    {
        if self.arena[0].children.is_some() {
            self.backtrack(store, 0);
        }
        let ghost h = store@;
        let ghost p = self@;
        proof {
            assert((h, p) == unassigned_root(old(store)@, old(self)@));
            crate::backtrack::lemma_retreat(old(store)@, old(self)@, 0, old(self)@.arena.len());
            assert(frame_fits(h, p.arena, 0));
        }
        self.arena.truncate(1);
        assert(self@.arena =~= seq![p.arena[0]]);
        let mut frames: Vec<usize> = Vec::new();
        frames.push(0);
        self.frames = frames;
        self.size = 0;
        let ghost before = self@;
        assert(before.frames =~= seq![0usize]);
        let r = self.arena[0].populate(store, fuel, ids);
        proof {
            let root = self@.arena[0];
            let flag = p.arena[0].component.next.has_rigid_equation;
            lemma_rigid_sane(h, p.meta, flag);
            lemma_grown_sane(with_rigid(h, p.meta, flag), store@, p.meta);
            assert(self@.arena =~= seq![root]);
            if r is Err {
                assert forall|j: int| 0 <= j < root.domain.len() implies candidate_fits(
                    store@,
                    p.meta,
                    #[trigger] root.domain[j],
                ) by {
                    crate::frames::lemma_candidate_grown(h, store@, p.meta, p.arena[0].domain[j]);
                }
            }
            lemma_single(store@, self@);
        }
        r
    }

    /// Takes back every assignment.
    pub fn cancel(&mut self, store: &mut Store)
        requires
            in_order(old(store)@, old(self)@),
        ensures
            (final(store)@, final(self)@) == retreat(
                old(store)@,
                old(self)@,
                0,
                old(self)@.arena.len(),
            ),
            in_order(final(store)@, final(self)@),
    {
        self.backtrack(store, 0)
    }
}

/// A search for a term of the same type, with nothing but a root. Also gives the next
/// identifier.
pub open spec fn replicated(
    h: Heap,
    p: ProverView,
    stats: Map<u64, MetaStats>,
    fuel: nat,
    next: u64,
) -> Result<(Heap, ProverView, u64), Fault> {
    match h.metas[p.meta as int].typ {
        None => Err(Fault::Malformed),
        Some(t) => if t.base.codomain >= h.metas.len() {
            Err(Fault::Malformed)
        } else {
            let m = h.metas.len() as MetaId;
            let h1 = Heap { metas: h.metas.push(typed_meta(h, t)), ..h };
            match meta_info(h1, m, stats, fuel, next) {
                Err(e) => Err(e),
                Ok((info, n)) => match populated(
                    h1,
                    root_only(m, info, p.tb_ref, p.problem_bind).arena[0],
                    fuel,
                    n,
                ) {
                    Err(e) => Err(e),
                    Ok((root, g, n2)) => Ok(
                        (
                            g,
                            ProverView {
                                arena: seq![root],
                                ..root_only(m, info, p.tb_ref, p.problem_bind)
                            },
                            n2,
                        ),
                    ),
                },
            }
        },
    }
}

/// What a step of copying a search came to.
pub enum Replay {
    /// Everything has been copied.
    Done,
    /// A frame that is yet to be assigned has been copied.
    Leaf,
    /// A frame of the copy has been given the assignment of the frame of the original. What the
    /// assignment leaves is yet to be added.
    Assign(usize, Pending),
}

/// The assignment of `m` by the variable that is the head of the assignment of `original`.
pub open spec fn matching(h: Heap, m: MetaId, original: MetaId, fuel: nat, next: u64) -> Result<
    (CandidateView, Heap, u64),
    Fault,
> {
    match h.metas[original as int].assignment {
        None => Err(Fault::Malformed),
        Some(a) => {
            let es = h.metas[m as int].gamma;
            let d = a.head.0.0 as int;
            if d >= es.len() {
                Err(Fault::Malformed)
            } else {
                match attempt(h, a.head, es[d], m, fuel, next) {
                    Err(e) => Err(e),
                    Ok((Some(Some(c)), g, n)) => Ok((c, g, n)),
                    Ok(_) => Err(Fault::Malformed),
                }
            }
        },
    }
}

/// Gives the frame `n` of the copy the assignment of the frame `o` of the original, and splits what
/// is left into components. Also gives the next identifier.
pub open spec fn reopened(
    h: Heap,
    q: ProverView,
    p: ProverView,
    n: int,
    o: int,
    stats: Map<u64, MetaStats>,
    fuel: nat,
    next: u64,
) -> Result<(Heap, Seq<(Seq<NextInfo>, Seq<MetaInfo>)>, u64), Fault> {
    let m = q.arena[n].meta();
    if h.assigned(m) {
        Err(Fault::Malformed)
    } else {
        match matching(h, m, p.arena[o].meta(), fuel, next) {
            Err(e) => Err(e),
            Ok((c, g, n1)) => match begun(g, q.arena[n], c, stats, fuel, n1) {
                Err(e) => Err(e),
                Ok((groups, n2)) => Ok((with_candidate(g, m, c), groups, n2)),
            },
        }
    }
}

/// The copy with what is recorded of the frame `o` of the original on its frame `n`.
pub open spec fn labelled(q: ProverView, p: ProverView, n: usize, o: usize) -> ProverView {
    ProverView {
        arena: q.arena.update(
            n as int,
            FrameView { stats: p.arena[o as int].stats, ..q.arena[n as int] },
        ),
        ..q
    }
}

/// The copy once the frame `n` has been reached: it stays on the list only if the frame `o` of the
/// original is unassigned.
pub open spec fn visited(q: ProverView, p: ProverView, n: usize, o: usize) -> ProverView {
    if p.arena[o as int].children is None {
        labelled(q, p, n, o)
    } else {
        ProverView { frames: without(q.frames, n), ..labelled(q, p, n, o) }
    }
}

/// Whether both metavariables are assigned, by the same variable.
pub open spec fn same_head(h: Heap, a: MetaId, b: MetaId) -> bool {
    &&& h.metas[a as int].assignment matches Some(s)
    &&& h.metas[b as int].assignment matches Some(t)
    &&& s.head == t.head
}

/// Whether the frame `x` of the copy is as the frame of the original that it comes from, or is yet
/// to be copied. A frame that comes from none is unassigned.
pub open spec fn copied(
    h: Heap,
    q: ProverView,
    p: ProverView,
    origin: Seq<Option<usize>>,
    pending: Seq<(usize, usize)>,
    hole: Option<(usize, usize)>,
    x: int,
) -> bool {
    match origin[x] {
        None => q.arena[x].children is None,
        Some(y) => y < p.arena.len() && match q.arena[x].children {
            None => pending.contains((x as usize, y)) || hole == Some((x as usize, y)) || (
            p.arena[y as int].children is None && q.arena[x].stats == p.arena[y as int].stats),
            Some(cs) => {
                &&& p.arena[y as int].children matches Some(ds)
                &&& q.arena[x].stats == p.arena[y as int].stats
                &&& same_head(h, q.arena[x].meta(), p.arena[y as int].meta())
                &&& children_copied(origin, cs, ds)
            },
        },
    }
}

/// Whether each of `ds` has a copy, at the same position of `cs`.
pub open spec fn children_copied(
    origin: Seq<Option<usize>>,
    cs: Seq<usize>,
    ds: Seq<usize>,
) -> bool {
    &&& ds.len() <= cs.len()
    &&& forall|i: int| 0 <= i < ds.len() ==> origin[(#[trigger] cs[i]) as int] == Some(ds[i])
}

/// Whether the frames of the copy are as those of the original that they come from, but for those
/// that are `pending` and for the `hole`, which is assigned without the frames below it.
pub open spec fn corresponds(
    h: Heap,
    q: ProverView,
    p: ProverView,
    origin: Seq<Option<usize>>,
    pending: Seq<(usize, usize)>,
    hole: Option<(usize, usize)>,
) -> bool {
    &&& origin.len() == q.arena.len()
    &&& origin[0] == Some(0usize)
    &&& forall|x: int|
        0 <= x < q.arena.len() ==> #[trigger] copied(h, q, p, origin, pending, hole, x)
    &&& forall|k: int|
        0 <= k < pending.len() ==> (#[trigger] pending[k]).0 < q.arena.len()
            && origin[pending[k].0 as int] == Some(pending[k].1)
            && q.arena[pending[k].0 as int].children is None
    &&& forall|j: int, k: int|
        0 <= j < k < pending.len() ==> (#[trigger] pending[j]).0 != (#[trigger] pending[k]).0
    &&& hole matches Some((n, o)) ==> {
        &&& n < q.arena.len()
        &&& origin[n as int] == Some(o)
        &&& q.arena[n as int].children is None
        &&& p.arena[o as int].children is Some
        &&& q.arena[n as int].stats == p.arena[o as int].stats
        &&& forall|k: int| 0 <= k < pending.len() ==> (#[trigger] pending[k]).0 != n
    }
}

/// Whether `q` is a copy of `p` so far: `pending` holds the frames that are yet to be copied, each
/// with the frame that it is to be a copy of. The `hole` is assigned without the frames below it.
pub open spec fn copying(
    h: Heap,
    q: ProverView,
    p: ProverView,
    pending: Seq<(usize, usize)>,
    hole: Option<(usize, usize)>,
) -> bool {
    &&& in_order(h, q)
    &&& in_order(h, p)
    &&& lists_all_leaves(
        q,
        match hole {
            Some((n, _)) => Some(n),
            None => None,
        },
    )
    &&& q.size == assigned_count(q.arena, q.arena.len() as int)
    &&& forall|x: int| 0 < x < q.arena.len() ==> #[trigger] attached(q.arena, x)
    &&& exists|origin: Seq<Option<usize>>| #[trigger] corresponds(h, q, p, origin, pending, hole)
}

impl Prover {
    /// Begins a copy of this search, on a fresh metavariable. The root is yet to be copied.
    pub fn replicate(
        &self,
        store: &mut Store,
        stats: &rustc_hash::FxHashMap<u64, MetaStats>,
        fuel: usize,
        ids: &mut Ids,
    ) -> (r: Result<Prover, Fault>)
        requires
            in_order(old(store)@, self@),
        ensures
            replicated(old(store)@, self@, stats@, fuel as nat, old(ids).next) == match r {
                Ok(p) => Ok::<(Heap, ProverView, u64), Fault>((final(store)@, p@, final(ids).next)),
                Err(e) => Err(e),
            },
            r matches Ok(p) ==> copying(final(store)@, p@, self@, seq![(0usize, 0usize)], None),
            in_order(final(store)@, self@),
    {
        let ghost h = store@;
        let ghost p = self@;
        proof {
            assert(frame_fits(h, p.arena, 0));
        }
        let typ: Type = match &store.meta(self.meta).typ {
            None => {
                return Err(Fault::Malformed);
            },
            Some(t) => t.clone(),
        };
        if !store.has_meta(typ.0.codomain) {
            return Err(Fault::Malformed);
        }
        let fresh: Meta = Meta::new(store, typ);
        let meta: MetaId = store.add_meta(fresh);
        let ghost h1 = store@;
        proof {
            lemma_sane_kept(h, h1);
            lemma_unaffected(h, h1, p);
        }
        match MetaInfo::new(store, meta, stats, fuel, ids) {
            Err(e) => Err(e),
            Ok(next) => {
                let mut root = Frame::new(Component { next, unassigned: Vec::new() }, None);
                assert(root@ == root_only(meta, next, p.tb_ref, p.problem_bind).arena[0]);
                let done = root.populate(store, fuel, ids);
                proof {
                    let flag = next.has_rigid_equation;
                    lemma_rigid_sane(h1, meta, flag);
                    lemma_grown_sane(with_rigid(h1, meta, flag), store@, meta);
                    lemma_grown_same(h1, store@, meta, flag);
                    lemma_unaffected(h1, store@, p);
                }
                match done {
                    Err(e) => Err(e),
                    Ok(()) => {
                        let mut arena: Vec<Frame> = Vec::new();
                        arena.push(root);
                        let mut frames: Vec<usize> = Vec::new();
                        frames.push(0);
                        let copy = Prover {
                            meta,
                            arena,
                            frames,
                            size: 0,
                            tb_ref: self.tb_ref.clone(),
                            problem_bind: self.problem_bind,
                        };
                        proof {
                            assert(copy@.arena =~= seq![root@]);
                            assert(copy@.frames =~= seq![0usize]);
                            lemma_single(store@, copy@);
                            lemma_copy_starts(store@, copy@, p);
                        }
                        Ok(copy)
                    },
                }
            },
        }
    }

    /// One step of copying the search `original` into this one. `pending` holds the frames that
    /// are yet to be copied, each with the frame that it is to be a copy of.
    pub fn replay(
        &mut self,
        original: &Prover,
        store: &mut Store,
        pending: &mut Vec<(usize, usize)>,
        stats: &rustc_hash::FxHashMap<u64, MetaStats>,
        fuel: usize,
        ids: &mut Ids,
    ) -> (r: Result<Replay, Fault>)
        requires
            copying(old(store)@, old(self)@, original@, old(pending)@, None),
        ensures
            old(pending)@.len() == 0 ==> r == Ok::<Replay, Fault>(Replay::Done) && final(self)@
                == old(self)@ && final(store)@ == old(store)@ && final(pending)@ == old(pending)@,
            old(pending)@.len() > 0 ==> {
                let (n, o) = old(pending)@.last();
                let expected = reopened(
                    old(store)@,
                    old(self)@,
                    original@,
                    n as int,
                    o as int,
                    stats@,
                    fuel as nat,
                    old(ids).next,
                );
                &&& final(pending)@ == old(pending)@.drop_last()
                &&& final(self)@ == visited(old(self)@, original@, n, o)
                &&& if original@.arena[o as int].children is None {
                    &&& r == Ok::<Replay, Fault>(Replay::Leaf)
                    &&& final(store)@ == old(store)@
                    &&& copying(final(store)@, final(self)@, original@, final(pending)@, None)
                } else {
                    match r {
                        Ok(Replay::Assign(b, left)) => {
                            &&& b == o
                            &&& left.frame == n
                            &&& expected == Ok::<
                                (Heap, Seq<(Seq<NextInfo>, Seq<MetaInfo>)>, u64),
                                Fault,
                            >((final(store)@, group_views(left.groups@), final(ids).next))
                            &&& opened(final(store)@, final(self)@, left)
                            &&& copying(
                                final(store)@,
                                final(self)@,
                                original@,
                                final(pending)@,
                                Some((n, o)),
                            )
                            &&& same_head(
                                final(store)@,
                                final(self)@.arena[n as int].meta(),
                                original@.arena[o as int].meta(),
                            )
                        },
                        Ok(_) => false,
                        Err(e) => expected == Err::<
                            (Heap, Seq<(Seq<NextInfo>, Seq<MetaInfo>)>, u64),
                            Fault,
                        >(e),
                    }
                }
            },
    {
        let ghost h = store@;
        let ghost q = self@;
        let ghost p = original@;
        let ghost before = pending@;
        let (n, o): (usize, usize) = match pending.pop() {
            None => {
                return Ok(Replay::Done);
            },
            Some(pair) => pair,
        };
        proof {
            lemma_pending(h, q, p, before);
            assert(frame_fits(h, q.arena, n as int));
            assert(frame_fits(h, p.arena, o as int));
        }
        self.arena[n].stats = original.arena[o].stats;
        assert(self@ =~= labelled(q, p, n, o));
        if original.arena[o].children.is_none() {
            proof {
                lemma_leaf_copied(h, q, p, before);
            }
            return Ok(Replay::Leaf);
        }
        self.unlist(n);
        let ghost q1 = self@;
        proof {
            lemma_taken_copied(h, q, p, before);
        }
        let m: MetaId = self.arena[n].component.next.meta;
        if store.meta(m).assignment.is_some() {
            return Err(Fault::Malformed);
        }
        let source: MetaId = original.arena[o].component.next.meta;
        let head: DeBruijnIndex = match &store.meta(source).assignment {
            None => {
                return Err(Fault::Malformed);
            },
            Some(a) => a.head,
        };
        let gamma: ES = store.meta(m).gamma.clone();
        if !gamma.longer_than(head.0.0) {
            return Err(Fault::Malformed);
        }
        let linked: Rc<Linked> = match gamma.sub_es(head.0).linked {
            None => {
                return Err(Fault::Malformed);
            },
            Some(l) => l,
        };
        assert(linked.node@ == h.metas[m as int].gamma[head.0.0 as int]) by {
            assert(nodes(Some(linked))[0] == linked.node@);
        }
        let attempted = crate::search::test(store, head, &linked, m, fuel, ids);
        let ghost g = store@;
        let element: Candidate = match attempted {
            Err(e) => {
                return Err(e);
            },
            Ok(Some(Some(c))) => c,
            Ok(_) => {
                return Err(Fault::Malformed);
            },
        };
        let ghost c = element@;
        proof {
            law_test_frame(h, head, linked.node@, m, fuel as nat, old(ids).next);
            lemma_attempt_grown(h, head, linked.node@, m, fuel as nat, old(ids).next);
            lemma_grown_sane(h, g, m);
            assert(same_assignments(h, g));
            lemma_copying_kept(h, g, q1, p, pending@, Some((n, o)));
        }
        match self.begin(store, n, element, stats, fuel, ids) {
            Err(e) => Err(e),
            Ok(left) => {
                proof {
                    lemma_copy_assigned(g, q1, p, pending@, n, o, c);
                }
                Ok(Replay::Assign(o, left))
            },
        }
    }
}

/// The children of a frame of the copy, each with the child of the original that it is to be a
/// copy of.
pub open spec fn pairs(copies: Seq<usize>, originals: Seq<usize>) -> Seq<(usize, usize)> {
    Seq::new(originals.len(), |i: int| (copies[i], originals[i]))
}

impl Prover {
    /// Adds the children of the frame `n` to the frames that are yet to be copied, to be taken
    /// in their order. It is a fault if a child of the frame `o` of the original has none to
    /// match.
    pub fn pair_children(
        &self,
        original: &Prover,
        n: usize,
        o: usize,
        pending: &mut Vec<(usize, usize)>,
    ) -> (r: Result<(), Fault>)
        requires
            n < self@.arena.len(),
            o < original@.arena.len(),
        ensures
            match (self@.arena[n as int].children, original@.arena[o as int].children) {
                (Some(cs), Some(ds)) => if ds.len() <= cs.len() {
                    r is Ok && final(pending)@ == old(pending)@ + pairs(cs, ds).reverse()
                } else {
                    r == Err::<(), Fault>(Fault::Malformed) && final(pending)@ == old(pending)@
                },
                _ => r == Err::<(), Fault>(Fault::Malformed) && final(pending)@ == old(pending)@,
            },
    {
        match (&self.arena[n].children, &original.arena[o].children) {
            (Some(cs), Some(ds)) => {
                if ds.len() > cs.len() {
                    return Err(Fault::Malformed);
                }
                let ghost all = pairs(cs@, ds@);
                let mut i: usize = ds.len();
                assert(all.skip(i as int).reverse() =~= Seq::empty());
                while i > 0
                    invariant
                        i <= ds@.len() <= cs@.len(),
                        all == pairs(cs@, ds@),
                        pending@ == old(pending)@ + all.skip(i as int).reverse(),
                    decreases i,
                {
                    i = i - 1;
                    pending.push((cs[i], ds[i]));
                    assert(all.skip(i as int).reverse() =~= all.skip(i + 1).reverse().push(
                        all[i as int],
                    ));
                }
                assert(all.skip(0) =~= all);
                Ok(())
            },
            _ => Err(Fault::Malformed),
        }
    }
}

impl Prover {
    /// Completes an assignment of the copy: adds the frames for what it leaves, and adds them to
    /// the frames that are yet to be copied.
    pub fn finish_copy(
        &mut self,
        original: &Prover,
        store: &mut Store,
        left: &Pending,
        o: usize,
        difficulty: &Vec<Vec<u64>>,
        pending: &mut Vec<(usize, usize)>,
        fuel: usize,
        ids: &mut Ids,
    ) -> (r: Result<(), Fault>)
        requires
            copying(old(store)@, old(self)@, original@, old(pending)@, Some((left.frame, o))),
            same_head(
                old(store)@,
                old(self)@.arena[left.frame as int].meta(),
                original@.arena[o as int].meta(),
            ),
            opened(old(store)@, old(self)@, *left),
            rated(group_views(left.groups@), difficulty@),
        ensures
            match finished(
                old(store)@,
                old(self)@,
                left.frame,
                group_views(left.groups@),
                difficulty@,
                false,
                fuel as nat,
                old(ids).next,
            ) {
                Err(e) => r == Err::<(), Fault>(e) && final(pending)@ == old(pending)@,
                Ok((g, q, _, next)) => {
                    let cs = q.arena[left.frame as int].children->0;
                    let ds = original@.arena[o as int].children->0;
                    &&& final(store)@ == g
                    &&& final(self)@ == q
                    &&& final(ids).next == next
                    &&& if ds.len() <= cs.len() {
                        &&& r is Ok
                        &&& final(pending)@ == old(pending)@ + pairs(cs, ds).reverse()
                    } else {
                        &&& r == Err::<(), Fault>(Fault::Malformed)
                        &&& final(pending)@ == old(pending)@
                    }
                },
            },
            r is Ok ==> copying(final(store)@, final(self)@, original@, final(pending)@, None),
    {
        let ghost h = store@;
        let ghost q = self@;
        let ghost p = original@;
        let ghost before = pending@;
        let n: usize = left.frame;
        match self.finish(store, left, difficulty, false, fuel, ids) {
            Err(e) => {
                return Err(e);
            },
            Ok(_) => {},
        }
        proof {
            let origin = choose|origin: Seq<Option<usize>>| #[trigger]
                corresponds(h, q, p, origin, before, Some((n, o)));
            assert(copied(h, q, p, origin, before, Some((n, o)), n as int));
        }
        match self.pair_children(original, n, o, pending) {
            Err(e) => Err(e),
            Ok(()) => {
                proof {
                    lemma_unaffected(h, store@, p);
                    lemma_copy_deepened(h, store@, q, self@, p, before, n, o);
                }
                Ok(())
            },
        }
    }
}

/// A fresh root is a copy so far.
proof fn lemma_copy_starts(h: Heap, q: ProverView, p: ProverView)
    requires
        in_order(h, q),
        in_order(h, p),
        q.arena.len() == 1,
        q.arena[0].children is None,
        q.size == 0,
        lists_all_leaves(q, None),
    ensures
        copying(h, q, p, seq![(0usize, 0usize)], None),
{
    let pending = seq![(0usize, 0usize)];
    let origin = seq![Some(0usize)];
    assert(pending[0] == (0usize, 0usize));
    assert(copied(h, q, p, origin, pending, None, 0));
    assert(corresponds(h, q, p, origin, pending, None));
    assert(assigned_count(q.arena, 1) == 0) by {
        reveal_with_fuel(assigned_count, 2);
    }
}

/// The next frame to copy.
proof fn lemma_pending(h: Heap, q: ProverView, p: ProverView, pending: Seq<(usize, usize)>)
    requires
        copying(h, q, p, pending, None),
        pending.len() > 0,
    ensures
        pending.last().0 < q.arena.len(),
        pending.last().1 < p.arena.len(),
        q.arena[pending.last().0 as int].children is None,
{
    let origin = choose|origin: Seq<Option<usize>>| #[trigger]
        corresponds(h, q, p, origin, pending, None);
    let (n, o) = pending[pending.len() - 1];
    assert(copied(h, q, p, origin, pending, None, n as int));
}

proof fn lemma_labelled(h: Heap, q: ProverView, p: ProverView, n: usize, o: usize)
    requires
        in_order(h, q),
        lists_all_leaves(q, None),
        q.size == assigned_count(q.arena, q.arena.len() as int),
        forall|x: int| 0 < x < q.arena.len() ==> #[trigger] attached(q.arena, x),
        n < q.arena.len(),
    ensures
        ({
            let q1 = labelled(q, p, n, o);
            &&& in_order(h, q1)
            &&& lists_all_leaves(q1, None)
            &&& q1.size == assigned_count(q1.arena, q1.arena.len() as int)
            &&& forall|x: int| 0 < x < q1.arena.len() ==> #[trigger] attached(q1.arena, x)
        }),
{
    let q1 = labelled(q, p, n, o);
    lemma_domain_changed(h, q, q1);
    lemma_same_leaves(q, q1, None);
    lemma_same_count(q.arena, q1.arena, q.arena.len() as int);
    assert forall|x: int| 0 < x < q1.arena.len() implies #[trigger] attached(q1.arena, x) by {
        assert(attached(q.arena, x));
    }
}

/// What is left to copy once the last frame of `pending` has been reached.
proof fn lemma_reached(
    h: Heap,
    q: ProverView,
    p: ProverView,
    origin: Seq<Option<usize>>,
    pending: Seq<(usize, usize)>,
    hole: Option<(usize, usize)>,
    frames: Seq<usize>,
)
    requires
        corresponds(h, q, p, origin, pending, None),
        q.arena.len() <= usize::MAX,
        pending.len() > 0,
        ({
            let (n, o) = pending.last();
            hole == if p.arena[o as int].children is None {
                None
            } else {
                Some((n, o))
            }
        }),
    ensures
        corresponds(
            h,
            ProverView { frames, ..labelled(q, p, pending.last().0, pending.last().1) },
            p,
            origin,
            pending.drop_last(),
            hole,
        ),
{
    let (n, o) = pending[pending.len() - 1];
    let rest = pending.drop_last();
    let q1 = ProverView { frames, ..labelled(q, p, n, o) };
    assert(n < q.arena.len());
    assert forall|x: int| 0 <= x < q1.arena.len() implies #[trigger] copied(
        h,
        q1,
        p,
        origin,
        rest,
        hole,
        x,
    ) by {
        assert(copied(h, q, p, origin, pending, None, x));
        if let Some(y) = origin[x] {
            if x != n && pending.contains((x as usize, y)) {
                let k = choose|k: int| 0 <= k < pending.len() && pending[k] == (x as usize, y);
                assert(rest[k] == (x as usize, y));
                assert(rest.contains((x as usize, y)));
            }
        }
    }
    assert forall|k: int| 0 <= k < rest.len() implies (#[trigger] rest[k]).0 < q1.arena.len()
        && origin[rest[k].0 as int] == Some(rest[k].1) && q1.arena[rest[k].0 as int].children
        is None && rest[k].0 != n by {
        assert(rest[k] == pending[k]);
    }
    assert forall|j: int, k: int| 0 <= j < k < rest.len() implies (#[trigger] rest[j]).0 != (
    #[trigger] rest[k]).0 by {
        assert(rest[j] == pending[j] && rest[k] == pending[k]);
    }
}

/// A frame that is unassigned in the original has been copied once it has been reached.
proof fn lemma_leaf_copied(h: Heap, q: ProverView, p: ProverView, pending: Seq<(usize, usize)>)
    requires
        copying(h, q, p, pending, None),
        pending.len() > 0,
        p.arena[pending.last().1 as int].children is None,
    ensures
        copying(
            h,
            labelled(q, p, pending.last().0, pending.last().1),
            p,
            pending.drop_last(),
            None,
        ),
{
    let origin = choose|origin: Seq<Option<usize>>| #[trigger]
        corresponds(h, q, p, origin, pending, None);
    let (n, o) = pending[pending.len() - 1];
    lemma_labelled(h, q, p, n, o);
    lemma_reached(h, q, p, origin, pending, None, q.frames);
    assert(labelled(q, p, n, o) == (ProverView { frames: q.frames, ..labelled(q, p, n, o) }));
}

/// A frame that is assigned in the original is taken off the list.
proof fn lemma_taken_copied(h: Heap, q: ProverView, p: ProverView, pending: Seq<(usize, usize)>)
    requires
        copying(h, q, p, pending, None),
        pending.len() > 0,
        p.arena[pending.last().1 as int].children is Some,
    ensures
        copying(
            h,
            visited(q, p, pending.last().0, pending.last().1),
            p,
            pending.drop_last(),
            Some(pending.last()),
        ),
{
    let origin = choose|origin: Seq<Option<usize>>| #[trigger]
        corresponds(h, q, p, origin, pending, None);
    let (n, o) = pending[pending.len() - 1];
    assert(n < q.arena.len());
    lemma_labelled(h, q, p, n, o);
    lemma_reached(h, q, p, origin, pending, Some((n, o)), without(q.frames, n));
    let q1 = labelled(q, p, n, o);
    let q2 = visited(q, p, n, o);
    lemma_all_live(q1.arena, n as int);
    assert(live(q1.arena, n as int) && q1.arena[n as int].children is None);
    assert(q1.frames.contains(n));
    lemma_position(q1.frames, n, 0);
    let i = position(q1.frames, n, 0)->0;
    lemma_taken(q1, i);
    lemma_relisted(h, q1, q2.frames);
}

proof fn lemma_all_live(arena: Seq<FrameView>, x: int)
    requires
        0 <= x < arena.len(),
        forall|y: int| 0 < y < arena.len() ==> #[trigger] attached(arena, y),
    ensures
        live(arena, x),
    decreases x,
{
    if x > 0 {
        assert(attached(arena, x));
        lemma_all_live(arena, arena[x].parent->0 as int);
    }
}

/// Changes that leave all assignments as they are leave the copy as it is.
proof fn lemma_copying_kept(
    h: Heap,
    g: Heap,
    q: ProverView,
    p: ProverView,
    pending: Seq<(usize, usize)>,
    hole: Option<(usize, usize)>,
)
    requires
        copying(h, q, p, pending, hole),
        sane(g),
        same_assignments(h, g),
    ensures
        copying(g, q, p, pending, hole),
{
    lemma_unaffected(h, g, q);
    lemma_unaffected(h, g, p);
    let origin = choose|origin: Seq<Option<usize>>| #[trigger]
        corresponds(h, q, p, origin, pending, hole);
    assert forall|x: int|
        0 <= x < q.arena.len() && (#[trigger] q.arena[x]).children
            is Some implies g.metas[q.arena[x].meta() as int].assignment
        == h.metas[q.arena[x].meta() as int].assignment by {
        assert(frame_fits(h, q.arena, x));
    }
    assert forall|x: int|
        0 <= x < p.arena.len() && (#[trigger] p.arena[x]).children
            is Some implies g.metas[p.arena[x].meta() as int].assignment
        == h.metas[p.arena[x].meta() as int].assignment by {
        assert(frame_fits(h, p.arena, x));
    }
    lemma_heads_kept(h, g, q, p, origin, pending, hole);
}

proof fn lemma_heads_kept(
    h: Heap,
    g: Heap,
    q: ProverView,
    p: ProverView,
    origin: Seq<Option<usize>>,
    pending: Seq<(usize, usize)>,
    hole: Option<(usize, usize)>,
)
    requires
        in_order(h, q),
        in_order(h, p),
        corresponds(h, q, p, origin, pending, hole),
        forall|x: int|
            0 <= x < q.arena.len() && (#[trigger] q.arena[x]).children is Some
                ==> g.metas[q.arena[x].meta() as int].assignment
                == h.metas[q.arena[x].meta() as int].assignment,
        forall|x: int|
            0 <= x < p.arena.len() && (#[trigger] p.arena[x]).children is Some
                ==> g.metas[p.arena[x].meta() as int].assignment
                == h.metas[p.arena[x].meta() as int].assignment,
    ensures
        corresponds(g, q, p, origin, pending, hole),
{
    assert forall|x: int| 0 <= x < q.arena.len() implies #[trigger] copied(
        g,
        q,
        p,
        origin,
        pending,
        hole,
        x,
    ) by {
        assert(copied(h, q, p, origin, pending, hole, x));
    }
}

/// The copy so far, once the hole has been assigned.
proof fn lemma_copy_assigned(
    h: Heap,
    q: ProverView,
    p: ProverView,
    pending: Seq<(usize, usize)>,
    n: usize,
    o: usize,
    c: CandidateView,
)
    requires
        copying(h, q, p, pending, Some((n, o))),
        !h.assigned(q.arena[n as int].meta()),
        candidate_fits(h, q.arena[n as int].meta(), c),
        h.metas[p.arena[o as int].meta() as int].assignment matches Some(a) && a.head
            == c.assignment.head,
    ensures
        ({
            let g = with_candidate(h, q.arena[n as int].meta(), c);
            &&& copying(g, q, p, pending, Some((n, o)))
            &&& same_head(g, q.arena[n as int].meta(), p.arena[o as int].meta())
        }),
{
    let m = q.arena[n as int].meta();
    let g = with_candidate(h, m, c);
    let origin = choose|origin: Seq<Option<usize>>| #[trigger]
        corresponds(h, q, p, origin, pending, Some((n, o)));
    assert(copied(h, q, p, origin, pending, Some((n, o)), n as int));
    assert(frame_fits(h, q.arena, n as int));
    assert(frame_fits(h, p.arena, o as int));
    lemma_with_candidate(h, m, c);
    assert forall|x: int|
        0 <= x < q.arena.len() && (#[trigger] q.arena[x]).children
            is Some implies g.metas[q.arena[x].meta() as int].assignment
        == h.metas[q.arena[x].meta() as int].assignment by {
        assert(frame_fits(h, q.arena, x));
    }
    assert forall|x: int|
        0 <= x < p.arena.len() && (#[trigger] p.arena[x]).children
            is Some implies g.metas[p.arena[x].meta() as int].assignment
        == h.metas[p.arena[x].meta() as int].assignment by {
        assert(frame_fits(h, p.arena, x));
    }
    lemma_heap_changed(h, g, q);
    lemma_heap_changed(h, g, p);
    lemma_heads_kept(h, g, q, p, origin, pending, Some((n, o)));
}

/// The copy so far, once the frames below the hole have been added.
proof fn lemma_copy_deepened(
    h: Heap,
    g: Heap,
    q: ProverView,
    q1: ProverView,
    p: ProverView,
    pending: Seq<(usize, usize)>,
    n: usize,
    o: usize,
)
    requires
        copying(h, q, p, pending, Some((n, o))),
        same_head(h, q.arena[n as int].meta(), p.arena[o as int].meta()),
        in_order(g, q1),
        in_order(g, p),
        same_assignments(h, g),
        deepened(q, q1, n as int),
        lists_all_leaves(q1, None),
        p.arena[o as int].children->0.len() <= q1.arena[n as int].children->0.len(),
    ensures
        copying(
            g,
            q1,
            p,
            pending + pairs(
                q1.arena[n as int].children->0,
                p.arena[o as int].children->0,
            ).reverse(),
            None,
        ),
{
    let origin = choose|origin: Seq<Option<usize>>| #[trigger]
        corresponds(h, q, p, origin, pending, Some((n, o)));
    let len = q.arena.len() as int;
    let cs = q1.arena[n as int].children->0;
    let ds = p.arena[o as int].children->0;
    let added = pairs(cs, ds).reverse();
    let all = pending + added;
    let wider = Seq::new(
        q1.arena.len(),
        |x: int|
            if x < len {
                origin[x]
            } else if x - len < ds.len() {
                Some(ds[x - len])
            } else {
                None
            },
    );
    assert(copied(h, q, p, origin, pending, Some((n, o)), n as int));
    assert(frame_fits(g, p.arena, o as int));
    assert forall|i: int| 0 <= i < cs.len() implies #[trigger] cs[i] == len + i by {}
    assert forall|k: int| 0 <= k < added.len() implies #[trigger] added[k] == (
        (len + (ds.len() - 1 - k)) as usize,
        ds[ds.len() - 1 - k],
    ) by {
        assert(added[k] == pairs(cs, ds)[ds.len() - 1 - k]);
        assert(cs[ds.len() - 1 - k] == len + (ds.len() - 1 - k));
    }
    assert forall|k: int| 0 <= k < all.len() implies #[trigger] all[k] == if k < pending.len() {
        pending[k]
    } else {
        added[k - pending.len()]
    } by {}
    assert forall|x: int| 0 <= x < q1.arena.len() implies #[trigger] copied(
        g,
        q1,
        p,
        wider,
        all,
        None,
        x,
    ) by {
        if x < len {
            assert(copied(h, q, p, origin, pending, Some((n, o)), x));
            if x != n {
                assert(q1.arena[x] == q.arena[x]);
                if let Some(y) = origin[x] {
                    if let Some(es) = q.arena[x].children {
                        assert(frame_fits(h, q.arena, x));
                        assert(frame_fits(h, p.arena, y as int));
                        let fs = p.arena[y as int].children->0;
                        assert forall|i: int| 0 <= i < fs.len() implies wider[(
                        #[trigger] es[i]) as int] == Some(fs[i]) by {
                            assert(x < es[i] < len);
                        }
                    } else if pending.contains((x as usize, y)) {
                        let k = choose|k: int|
                            0 <= k < pending.len() && pending[k] == (x as usize, y);
                        assert(all[k] == (x as usize, y));
                    }
                }
            } else {
                assert(frame_fits(h, q.arena, x));
                assert(frame_fits(h, p.arena, o as int));
                assert(children_copied(wider, cs, ds));
            }
        } else {
            assert(q1.arena[x].children is None);
            let i = x - len;
            if i < ds.len() {
                let k = ds.len() - 1 - i;
                assert(added[k] == (x as usize, ds[i]));
                assert(all[pending.len() + k] == (x as usize, ds[i]));
                assert(all.contains((x as usize, ds[i])));
                assert(ds[i] < p.arena.len());
            }
        }
    }
    assert forall|k: int| 0 <= k < all.len() implies (#[trigger] all[k]).0 < q1.arena.len()
        && wider[all[k].0 as int] == Some(all[k].1) && q1.arena[all[k].0 as int].children
        is None by {
        if k < pending.len() {
            assert(all[k] == pending[k]);
            assert(q1.arena[all[k].0 as int] == q.arena[all[k].0 as int]);
        } else {
            assert(added[k - pending.len()] == all[k]);
        }
    }
    assert forall|j: int, k: int| 0 <= j < k < all.len() implies (#[trigger] all[j]).0 != (
    #[trigger] all[k]).0 by {
        if k < pending.len() {
            assert(all[j] == pending[j] && all[k] == pending[k]);
        } else {
            assert(added[k - pending.len()] == all[k]);
            if j >= pending.len() {
                assert(added[j - pending.len()] == all[j]);
            } else {
                assert(all[j] == pending[j]);
            }
        }
    }
    assert(wider[0] == Some(0usize));
    assert(corresponds(g, q1, p, wider, all, None));
    assert forall|x: int| 0 < x < q1.arena.len() implies #[trigger] attached(q1.arena, x) by {
        if x < len {
            assert(attached(q.arena, x));
            let up = q.arena[x].parent->0 as int;
            assert(up != n);
            assert(q1.arena[x].parent == q.arena[x].parent);
        } else {
            assert(q1.arena[x].parent == Some(n));
            assert(cs[x - len] == x as usize);
        }
    }
    let before = q.arena.update(n as int, q1.arena[n as int]);
    lemma_count_update(q.arena, n as int, q1.arena[n as int], len);
    lemma_same_count(before, q1.arena, len);
    lemma_count_leaves(q1.arena, len, q1.arena.len() as int);
}

proof fn lemma_count_leaves(arena: Seq<FrameView>, len: int, k: int)
    requires
        0 <= len <= k <= arena.len(),
        forall|x: int| len <= x < k ==> (#[trigger] arena[x]).children is None,
    ensures
        assigned_count(arena, k) == assigned_count(arena, len),
    decreases k,
{
    if len < k {
        lemma_count_leaves(arena, len, k - 1);
        assert(arena[k - 1].children is None);
    }
}

/// Whether every frame of the copy is as the frame of the original that `origin` gives for it: both
/// are unassigned, or both are assigned by the same variable, and the children come from the
/// children, in their order. Each carries what is recorded of the original.
pub open spec fn mirrors(
    h: Heap,
    q: ProverView,
    p: ProverView,
    origin: Seq<Option<usize>>,
) -> bool {
    &&& origin.len() == q.arena.len()
    &&& origin[0] == Some(0usize)
    &&& forall|x: int|
        0 <= x < q.arena.len() ==> (#[trigger] origin[x] matches Some(y) && {
            &&& y < p.arena.len()
            &&& q.arena[x].stats == p.arena[y as int].stats
            &&& match (q.arena[x].children, p.arena[y as int].children) {
                (None, None) => true,
                (Some(cs), Some(ds)) => {
                    &&& same_head(h, q.arena[x].meta(), p.arena[y as int].meta())
                    &&& cs.len() == ds.len()
                    &&& children_copied(origin, cs, ds)
                },
                _ => false,
            }
        })
}

/// Whether no assignment of the copy leaves more components than that of the original did.
pub open spec fn nothing_extra(
    q: ProverView,
    p: ProverView,
    origin: Seq<Option<usize>>,
) -> bool {
    forall|x: int|
        0 <= x < q.arena.len() && (#[trigger] q.arena[x]).children is Some && origin[x] is Some
            && p.arena[origin[x]->0 as int].children is Some ==> q.arena[x].children->0.len()
            == p.arena[origin[x]->0 as int].children->0.len()
}

/// Once nothing is left to copy: each frame that comes from the original is as it was there, and if
/// the assignments left as many components as before then all frames come from the original. The
/// size is the number of assigned frames, and the frames that are listed are exactly the unassigned
/// ones, each once.
pub proof fn law_copy_finished(h: Heap, q: ProverView, p: ProverView)
    requires
        copying(h, q, p, Seq::empty(), None),
    ensures
        exists|origin: Seq<Option<usize>>|
            {
                &&& #[trigger] corresponds(h, q, p, origin, Seq::empty(), None)
                &&& nothing_extra(q, p, origin) ==> mirrors(h, q, p, origin)
            },
        q.size == assigned_count(q.arena, q.arena.len() as int),
        q.frames.no_duplicates(),
        forall|x: usize|
            x < q.arena.len() ==> (#[trigger] q.frames.contains(x) <==> q.arena[x as int].children
                is None),
        forall|k: int| 0 <= k < q.frames.len() ==> (#[trigger] q.frames[k]) < q.arena.len(),
{
    let none = Seq::<(usize, usize)>::empty();
    let origin = choose|origin: Seq<Option<usize>>| #[trigger]
        corresponds(h, q, p, origin, none, None);
    if nothing_extra(q, p, origin) {
        assert forall|x: int| 0 <= x < q.arena.len() implies (#[trigger] origin[x] matches Some(
            y,
        ) && {
            &&& y < p.arena.len()
            &&& q.arena[x].stats == p.arena[y as int].stats
            &&& match (q.arena[x].children, p.arena[y as int].children) {
                (None, None) => true,
                (Some(cs), Some(ds)) => {
                    &&& same_head(h, q.arena[x].meta(), p.arena[y as int].meta())
                    &&& cs.len() == ds.len()
                    &&& children_copied(origin, cs, ds)
                },
                _ => false,
            }
        }) by {
            lemma_origin(h, q, p, origin, x);
            assert(copied(h, q, p, origin, none, None, x));
        }
        assert(mirrors(h, q, p, origin));
    }
    assert forall|x: usize| x < q.arena.len() implies (#[trigger] q.frames.contains(x)
        <==> q.arena[x as int].children is None) by {
        lemma_all_live(q.arena, x as int);
        assert(live(q.arena, x as int));
        if q.frames.contains(x) {
            let k = choose|k: int| 0 <= k < q.frames.len() && q.frames[k] == x;
            assert(q.arena[q.frames[k] as int].children is None);
        }
    }
}

proof fn lemma_origin(
    h: Heap,
    q: ProverView,
    p: ProverView,
    origin: Seq<Option<usize>>,
    x: int,
)
    requires
        corresponds(h, q, p, origin, Seq::empty(), None),
        nothing_extra(q, p, origin),
        in_order(h, q),
        forall|y: int| 0 < y < q.arena.len() ==> #[trigger] attached(q.arena, y),
        0 <= x < q.arena.len(),
    ensures
        origin[x] is Some,
    decreases x,
{
    if x > 0 {
        assert(attached(q.arena, x));
        let up = q.arena[x].parent->0 as int;
        lemma_origin(h, q, p, origin, up);
        assert(copied(h, q, p, origin, Seq::<(usize, usize)>::empty(), None, up));
        let cs = q.arena[up].children->0;
        let ds = p.arena[origin[up]->0 as int].children->0;
        let i = choose|i: int| 0 <= i < cs.len() && cs[i] == x as usize;
        assert(cs.len() == ds.len());
        assert(origin[cs[i] as int] == Some(ds[i]));
    }
}

/// The assignments stay the same while an unassigned metavariable is tried.
proof fn lemma_grown_same(h: Heap, g: Heap, m: MetaId, flag: bool)
    requires
        m < h.metas.len(),
        !h.assigned(m),
        grown(with_rigid(h, m, flag), g, m),
    ensures
        same_assignments(h, g),
{
    let w = with_rigid(h, m, flag);
    assert forall|x: int| 0 <= x < h.metas.len() implies (#[trigger] g.metas[x]).assignment
        == h.metas[x].assignment by {
        if x != m {
            assert(g.metas[x] == w.metas[x]);
        }
    }
}

/// Another search is unaffected by changes that leave all assignments as they are.
proof fn lemma_unaffected(h: Heap, g: Heap, p: ProverView)
    requires
        in_order(h, p),
        sane(g),
        same_assignments(h, g),
    ensures
        in_order(g, p),
{
    assert forall|x: int|
        0 <= x < p.arena.len() && (#[trigger] p.arena[x]).children
            is Some implies g.metas[p.arena[x].meta() as int].assignment
        == h.metas[p.arena[x].meta() as int].assignment by {
        assert(frame_fits(h, p.arena, x));
    }
    lemma_heap_changed(h, g, p);
}

} // verus!
