//! Completing an assignment: the frames below it, and copying a search onto fresh
//! metavariables.
use crate::backtrack::{
    attached, below, children_cover, children_fit, covered, distinct_metas, frame_fits, holds,
    in_order, lemma_count_update, lists_all_leaves, lists_leaves, live, Prover, ProverView,
};
use crate::data::MetaId;
use crate::frames::{candidate_fits, grown, with_rigid, Frame, FrameView};
use crate::ids::{Fault, Ids};
use crate::independence::{
    choice, component_of, component_views, components_of, group_views, lemma_choice_exists,
    metas_of, rated, selects, split, Component, ComponentView, NextInfo,
};
use crate::memory::{Heap, Store};
use crate::meta::copy_ids;
use crate::prover::{
    blank_frame, finished, group_fits, groups_cover, in_groups, lemma_gave_up, lemma_heap_changed,
    lemma_same_count, lemma_sane_kept, new_ids, opened, same_assignments, spawned, unshared, Move,
    Pending,
};
use crate::stats::MetaInfo;
use crate::term::args_of;
use vstd::prelude::*;

verus! {

/// A component holds every metavariable of its group.
proof fn lemma_component_holds(
    h: Heap,
    members: Seq<NextInfo>,
    infos: Seq<MetaInfo>,
    difficulty: Seq<u64>,
    c: ComponentView,
)
    requires
        component_of(members, infos, difficulty) == Some(c),
        group_fits(h, members, infos),
        members.len() <= usize::MAX,
    ensures
        c.next.meta < h.metas.len(),
        forall|k: int| 0 <= k < members.len() ==> holds(c, (#[trigger] members[k]).meta),
{
    lemma_choice_exists(members, infos, difficulty);
    let i = choice(members, infos, difficulty)->0 as int;
    assert(selects(members, infos, difficulty, Some(i as usize)));
    assert(0 <= i < members.len());
    let ms = metas_of(members);
    assert(infos[i].meta == members[i].meta);
    assert forall|k: int| 0 <= k < members.len() implies holds(c, (#[trigger] members[k]).meta) by {
        if k != i {
            if k == members.len() - 1 {
                assert(c.unassigned[i] == ms[k]);
            } else {
                assert(c.unassigned[k] == ms[k]);
            }
        }
    }
}

/// The components are made of the groups, one of each.
proof fn lemma_components(
    groups: Seq<(Seq<NextInfo>, Seq<MetaInfo>)>,
    difficulty: Seq<Vec<u64>>,
    k: int,
)
    requires
        0 <= k,
    ensures
        components_of(groups, difficulty, k) matches Some(cs) ==> cs.len() == k && forall|b: int|
            0 <= b < k ==> component_of(groups[b].0, groups[b].1, difficulty[b]@) == Some(
                #[trigger] cs[b],
            ),
    decreases k,
{
    if k > 0 {
        lemma_components(groups, difficulty, k - 1);
    }
}

/// Adding an unassigned frame keeps the search in order.
proof fn lemma_pushed(h: Heap, p: ProverView, fr: FrameView)
    requires
        in_order(h, p),
        p.arena.len() < usize::MAX,
        fr.children is None,
        fr.parent matches Some(q) && q < p.arena.len(),
        fr.meta() < h.metas.len(),
        forall|k: int|
            0 <= k < fr.domain.len() ==> candidate_fits(h, fr.meta(), #[trigger] fr.domain[k]),
    ensures
        in_order(h, ProverView { arena: p.arena.push(fr), ..p }),
{
    let q = ProverView { arena: p.arena.push(fr), ..p };
    let n = p.arena.len();
    assert forall|x: int| 0 <= x < q.arena.len() implies #[trigger] frame_fits(
        h,
        q.arena,
        x,
    ) by {
        if x < n {
            assert(frame_fits(h, p.arena, x));
            assert(q.arena[x] == p.arena[x]);
            if let Some(ds) = q.arena[x].children {
                assert(children_fit(q.arena, x, ds)) by {
                    assert forall|i: int| 0 <= i < ds.len() implies x < (#[trigger] ds[i])
                        < q.arena.len() && q.arena[ds[i] as int].parent == Some(x as usize) by {
                        assert(p.arena[ds[i] as int].parent == Some(x as usize));
                    }
                }
                assert(children_cover(h, q.arena, q.arena[x], ds)) by {
                    let fx = q.arena[x];
                    assert forall|y: MetaId|
                        args_of(h, fx.meta()).contains(y) || fx.component.unassigned.contains(
                            y,
                        ) implies #[trigger] covered(q.arena, ds, y) by {
                        assert(covered(p.arena, ds, y));
                        let i = choose|i: int|
                            0 <= i < ds.len() && holds(
                                p.arena[#[trigger] ds[i] as int].component,
                                y,
                            );
                        assert(p.arena[ds[i] as int].parent == Some(x as usize));
                        assert(holds(q.arena[ds[i] as int].component, y));
                    }
                }
                if x > 0 {
                    assert(attached(p.arena, x));
                    assert(attached(q.arena, x));
                }
            }
        }
    }
    assert forall|k: int| 0 <= k < q.frames.len() implies (#[trigger] q.frames[k])
        < q.arena.len() by {
        assert(p.frames[k] < p.arena.len());
    }
    lemma_same_count(p.arena, q.arena, n as int);
    assert(q.arena[0] == p.arena[0]);
}

/// A populated frame leaves the assignments as they were, if its metavariable was unassigned.
proof fn lemma_populated_keeps(h: Heap, g: Heap, m: MetaId, flag: bool)
    requires
        m < h.metas.len(),
        !h.assigned(m),
        grown(with_rigid(h, m, flag), g, m),
    ensures
        same_assignments(h, g),
{
    let w = with_rigid(h, m, flag);
    assert forall|x: int| 0 <= x < h.metas.len() implies (#[trigger] g.metas[x]).assignment
        == h.metas[x].assignment by {
        if x != m {
            assert(g.metas[x] == w.metas[x]);
        }
    }
}

proof fn lemma_spawned_fails(
    h: Heap,
    arena: Seq<FrameView>,
    f: usize,
    cs: Seq<ComponentView>,
    k: int,
    n: int,
    fuel: nat,
    next: u64,
)
    requires
        0 <= k <= n,
        spawned(h, arena, f, cs, k, fuel, next) is Err,
    ensures
        spawned(h, arena, f, cs, n, fuel, next) == spawned(h, arena, f, cs, k, fuel, next),
    decreases n - k,
{
    if k < n {
        lemma_spawned_fails(h, arena, f, cs, k, n - 1, fuel, next);
    }
}

/// The arena with the frames `ids` made the children of the frame `f`.
pub open spec fn with_children(arena: Seq<FrameView>, f: int, ids: Seq<usize>) -> Seq<FrameView> {
    arena.update(f, FrameView { children: Some(ids), ..arena[f] })
}

/// Whether `q` is `p` with unassigned frames below the frame `f`, which is assigned.
pub open spec fn deepened(p: ProverView, q: ProverView, f: int) -> bool {
    let n = p.arena.len();
    &&& n <= q.arena.len()
    &&& q.size == p.size + 1
    &&& q.arena[f] == (FrameView {
        children: Some(new_ids(n, (q.arena.len() - n) as nat)),
        ..p.arena[f]
    })
    &&& forall|x: int| 0 <= x < n && x != f ==> #[trigger] q.arena[x] == p.arena[x]
    &&& forall|x: int|
        n <= x < q.arena.len() ==> (#[trigger] q.arena[x]).parent == Some(f as usize)
            && q.arena[x].children is None
}

/// Whether the arena `b` is `a` with frames for the components below the frame `f`.
spec fn extended(
    a: Seq<FrameView>,
    b: Seq<FrameView>,
    f: usize,
    cs: Seq<ComponentView>,
    k: int,
) -> bool {
    &&& b.len() == a.len() + k
    &&& forall|x: int| 0 <= x < a.len() ==> #[trigger] b[x] == a[x]
    &&& forall|i: int|
        a.len() <= i < a.len() + k ==> (#[trigger] b[i]).component == cs[i - a.len()] && b[i].parent
            == Some(f) && b[i].children is None
}

/// Making the new frames the children of the frame that was assigned keeps the search in order.
proof fn lemma_children_set(
    h: Heap,
    p: ProverView,
    p1: ProverView,
    f: usize,
    cs: Seq<ComponentView>,
    groups: Seq<(Seq<NextInfo>, Seq<MetaInfo>)>,
)
    requires
        in_order(h, p1),
        p1 == (ProverView { arena: p1.arena, ..p }),
        f < p.arena.len(),
        extended(p.arena, p1.arena, f, cs, cs.len() as int),
        p.arena[f as int].children is None,
        h.assigned(p.arena[f as int].meta()),
        unshared(p.arena, f as int),
        f > 0 ==> attached(p.arena, f as int),
        groups_cover(h, p.arena[f as int], groups),
        cs.len() == groups.len(),
        forall|b: int, k: int|
            0 <= b < groups.len() && 0 <= k < groups[b].0.len() ==> holds(
                cs[b],
                (#[trigger] groups[b].0[k]).meta,
            ),
        p.size < usize::MAX,
    ensures
        in_order(
            h,
            ProverView {
                arena: with_children(p1.arena, f as int, new_ids(p.arena.len(), cs.len())),
                size: (p.size + 1) as usize,
                ..p
            },
        ),
{
    let n = p.arena.len();
    let ids = new_ids(n, cs.len());
    let q = ProverView {
        arena: with_children(p1.arena, f as int, ids),
        size: (p.size + 1) as usize,
        ..p
    };
    let fi = f as int;
    assert forall|i: int| 0 <= i < ids.len() implies #[trigger] ids[i] == n + i by {}
    assert forall|x: int| 0 <= x < q.arena.len() implies (#[trigger] q.arena[x]).parent
        == p1.arena[x].parent && q.arena[x].component == p1.arena[x].component by {}
    assert forall|x: int| 0 <= x < q.arena.len() implies #[trigger] frame_fits(
        h,
        q.arena,
        x,
    ) by {
        assert(frame_fits(h, p1.arena, x));
        let fx = q.arena[x];
        if x == fi {
            assert(p1.arena[fi] == p.arena[fi]);
            assert(children_fit(q.arena, x, ids)) by {
                assert forall|i: int| 0 <= i < ids.len() implies x < (#[trigger] ids[i])
                    < q.arena.len() && q.arena[ids[i] as int].parent == Some(x as usize) by {
                    assert(p1.arena[n + i].parent == Some(f));
                }
            }
            assert(children_cover(h, q.arena, fx, ids)) by {
                assert forall|y: MetaId|
                    args_of(h, fx.meta()).contains(y) || fx.component.unassigned.contains(
                        y,
                    ) implies #[trigger] covered(q.arena, ids, y) by {
                    assert(in_groups(groups, y));
                    let (b, k) = choose|b: int, k: int|
                        0 <= b < groups.len() && 0 <= k < groups[b].0.len() && (
                        #[trigger] groups[b].0[k]).meta == y;
                    assert(holds(cs[b], groups[b].0[k].meta));
                    assert(p1.arena[n + b].component == cs[b]);
                    assert(ids[b] == n + b);
                    assert(holds(q.arena[ids[b] as int].component, y));
                }
            }
            if x > 0 {
                let up = p.arena[fi].parent->0 as int;
                assert(p1.arena[up] == p.arena[up]);
                assert(attached(q.arena, x));
            }
        } else if let Some(ds) = fx.children {
            assert(p1.arena[x].children == Some(ds));
            assert(children_fit(q.arena, x, ds)) by {
                assert forall|i: int| 0 <= i < ds.len() implies x < (#[trigger] ds[i])
                    < q.arena.len() && q.arena[ds[i] as int].parent == Some(x as usize) by {
                    assert(p1.arena[ds[i] as int].parent == Some(x as usize));
                }
            }
            assert(children_cover(h, q.arena, fx, ds)) by {
                assert forall|y: MetaId|
                    args_of(h, fx.meta()).contains(y) || fx.component.unassigned.contains(
                        y,
                    ) implies #[trigger] covered(q.arena, ds, y) by {
                    assert(covered(p1.arena, ds, y));
                    let i = choose|i: int|
                        0 <= i < ds.len() && holds(p1.arena[#[trigger] ds[i] as int].component, y);
                    assert(p1.arena[ds[i] as int].parent == Some(x as usize));
                    assert(holds(q.arena[ds[i] as int].component, y));
                }
            }
            if x > 0 {
                assert(attached(p1.arena, x));
                let up = p1.arena[x].parent->0 as int;
                assert(up != fi) by {
                    if up == fi {
                        assert(p1.arena[fi] == p.arena[fi]);
                    }
                }
                assert(q.arena[up].children == p1.arena[up].children);
                assert(attached(q.arena, x));
            }
        }
    }
    assert(distinct_metas(q.arena)) by {
        assert forall|x: int, y: int|
            0 <= x < q.arena.len() && 0 <= y < q.arena.len() && x != y && (
            #[trigger] q.arena[x]).children is Some && (#[trigger] q.arena[y]).children
                is Some implies q.arena[x].meta() != q.arena[y].meta() by {
            let (a, b) = if y == fi {
                (y, x)
            } else {
                (x, y)
            };
            if a == fi {
                assert(b < n) by {
                    if b >= n {
                        assert(p1.arena[b].children is None);
                    }
                }
                assert(p1.arena[b] == p.arena[b] && p1.arena[fi] == p.arena[fi]);
                assert(p.arena[b].children is Some);
            } else {
                assert(p1.arena[x].children is Some && p1.arena[y].children is Some);
            }
        }
    }
    assert(p1.arena[fi] == p.arena[fi]);
    lemma_count_update(p1.arena, fi, q.arena[fi], p1.arena.len() as int);
    assert(q.arena[0].parent is None && q.arena[0].component == p1.arena[0].component);
    assert forall|k: int| 0 <= k < q.frames.len() implies (#[trigger] q.frames[k])
        < q.arena.len() by {
        assert(p1.frames[k] < p1.arena.len());
    }
}

/// A frame stays live when frames are added and unassigned frames get children.
proof fn lemma_live_extended(a: Seq<FrameView>, b: Seq<FrameView>, x: int)
    requires
        0 <= x < a.len() <= b.len(),
        forall|z: int|
            0 <= z < a.len() ==> (#[trigger] b[z]).parent == a[z].parent && (a[z].children is Some
                ==> b[z].children == a[z].children),
        live(a, x),
    ensures
        live(b, x),
    decreases x,
{
    if x != 0 {
        let up = a[x].parent->0 as int;
        assert(b[x].parent == a[x].parent);
        assert(b[up].children == a[up].children);
        lemma_live_extended(a, b, up);
        assert(attached(b, x));
    }
}

/// An earlier frame that is live after the frame `f` got only new children was live before.
proof fn lemma_live_restricted(a: Seq<FrameView>, b: Seq<FrameView>, f: int, x: int)
    requires
        0 <= x < a.len() <= b.len() <= usize::MAX,
        0 <= f < a.len(),
        forall|z: int|
            0 <= z < a.len() ==> (#[trigger] b[z]).parent == a[z].parent && (z != f ==> b[z].children
                == a[z].children),
        b[f].children matches Some(cs) && forall|i: int|
            0 <= i < cs.len() ==> (#[trigger] cs[i]) >= a.len(),
        live(b, x),
    ensures
        live(a, x),
    decreases x,
{
    if x != 0 {
        let up = b[x].parent->0 as int;
        assert(b[x].parent == a[x].parent);
        if up == f {
            let cs = b[f].children->0;
            let i = choose|i: int| 0 <= i < cs.len() && cs[i] == x as usize;
            assert(cs[i] >= a.len());
        }
        assert(b[up].children == a[up].children);
        lemma_live_restricted(a, b, f, up);
        assert(attached(a, x));
    }
}

/// Which frames are live and unassigned once the new frames are the children of the hole `f`.
proof fn lemma_leaves_after(h: Heap, p: ProverView, p1: ProverView, f: usize, cs: Seq<ComponentView>)
    requires
        p.arena.len() + cs.len() <= usize::MAX,
        forall|k: int| 0 <= k < p.frames.len() ==> (#[trigger] p.frames[k]) < p.arena.len(),
        lists_all_leaves(p, Some(f)),
        p1.frames == p.frames,
        exists|mid: Seq<FrameView>|
            extended(p.arena, mid, f, cs, cs.len() as int) && p1.arena == #[trigger] with_children(
                mid,
                f as int,
                new_ids(p.arena.len(), cs.len()),
            ),
    ensures
        live(p1.arena, f as int),
        lists_leaves(p1),
        forall|x: int|
            0 <= x < p1.arena.len() && #[trigger] live(p1.arena, x) && p1.arena[x].children is None
                ==> below(p1.arena, x, f as int) || p1.frames.contains(x as usize),
        lists_all_leaves(
            ProverView { frames: p1.frames + new_ids(p.arena.len(), cs.len()), ..p1 },
            None,
        ),
{
    let n = p.arena.len();
    let ids = new_ids(n, cs.len());
    let fi = f as int;
    let mid = choose|mid: Seq<FrameView>|
        extended(p.arena, mid, f, cs, cs.len() as int) && p1.arena == #[trigger] with_children(
            mid,
            fi,
            ids,
        );
    let a = p.arena;
    let b = p1.arena;
    assert forall|i: int| 0 <= i < ids.len() implies #[trigger] ids[i] == n + i by {}
    assert forall|z: int| 0 <= z < n implies (#[trigger] b[z]).parent == a[z].parent && (z != fi
        ==> b[z].children == a[z].children) by {
        assert(mid[z] == a[z]);
    }
    assert(live(a, fi));
    lemma_live_extended(a, b, fi);
    assert forall|k: int| 0 <= k < p1.frames.len() implies live(
        b,
        (#[trigger] p1.frames[k]) as int,
    ) && b[p1.frames[k] as int].children is None by {
        let y = p.frames[k];
        assert(live(a, p.frames[k] as int));
        lemma_live_extended(a, b, y as int);
        assert(p.frames.contains(y));
        assert(y != f);
    }
    assert forall|x: int| n <= x < b.len() implies b[x].parent == Some(f) && b[x].children is None
        && #[trigger] live(b, x) && below(b, x, fi) by {
        assert(mid[x].parent == Some(f) && mid[x].children is None);
        assert(ids[x - n] == x);
        assert(ids.contains(x as usize));
        assert(attached(b, x));
    }
    assert forall|x: int| 0 <= x < b.len() && #[trigger] live(b, x) && b[x].children
        is None implies below(b, x, fi) || p1.frames.contains(x as usize) by {
        if x < n {
            lemma_live_restricted(a, b, fi, x);
            assert(live(a, x));
            assert(x != fi);
        }
    }
    let q = ProverView { frames: p1.frames + ids, ..p1 };
    assert forall|i: int, j: int|
        0 <= i < q.frames.len() && 0 <= j < q.frames.len() && i != j implies q.frames[i]
        != q.frames[j] by {
        let m = p1.frames.len();
        if i < m {
            assert(p.frames[i] < n);
        } else {
            assert(q.frames[i] == ids[i - m]);
        }
        if j < m {
            assert(p.frames[j] < n);
        } else {
            assert(q.frames[j] == ids[j - m]);
        }
    }
    assert forall|k: int| 0 <= k < q.frames.len() implies live(
        q.arena,
        (#[trigger] q.frames[k]) as int,
    ) && q.arena[q.frames[k] as int].children is None by {
        if k >= p1.frames.len() {
            assert(q.frames[k] == ids[k - p1.frames.len()]);
            assert(live(b, n + (k - p1.frames.len())));
        } else {
            assert(q.frames[k] == p1.frames[k]);
        }
    }
    assert forall|x: int| 0 <= x < q.arena.len() && #[trigger] live(q.arena, x) && q.arena[x].children
        is None implies q.frames.contains(x as usize) by {
        if x < n {
            lemma_live_restricted(a, b, fi, x);
            assert(live(a, x));
            assert(x != fi);
            let k = choose|k: int| 0 <= k < p.frames.len() && p.frames[k] == x as usize;
            assert(q.frames[k] == x as usize);
        } else {
            assert(q.frames[p1.frames.len() + (x - n)] == ids[x - n]);
        }
    }
}

impl Prover {
    /// Adds a frame below the frame `f` for each of the components.
    fn spawn(
        &mut self,
        store: &mut Store,
        f: usize,
        components: &Vec<Component>,
        fuel: usize,
        ids: &mut Ids,
    ) -> (r: Result<(), Fault>)
        requires
            in_order(old(store)@, old(self)@),
            f < old(self)@.arena.len(),
            forall|k: int|
                0 <= k < components@.len() ==> (#[trigger] components@[k]).next.meta < old(
                    store,
                )@.metas.len(),
        ensures
            spawned(
                old(store)@,
                old(self)@.arena,
                f,
                component_views(components@),
                components@.len() as int,
                fuel as nat,
                old(ids).next,
            ) == match r {
                Ok(()) => Ok::<(Heap, Seq<FrameView>, u64), Fault>(
                    (final(store)@, final(self)@.arena, final(ids).next),
                ),
                Err(e) => Err(e),
            },
            final(self)@ == (ProverView { arena: final(self)@.arena, ..old(self)@ }),
            in_order(final(store)@, final(self)@),
            same_assignments(old(store)@, final(store)@),
            r is Ok ==> extended(
                old(self)@.arena,
                final(self)@.arena,
                f,
                component_views(components@),
                components@.len() as int,
            ),
    {
        let ghost h = store@;
        let ghost p = self@;
        let ghost cs = component_views(components@);
        let mut k: usize = 0;
        while k < components.len()
            invariant
                k <= components@.len(),
                cs == component_views(components@),
                h == old(store)@,
                p == old(self)@,
                f < p.arena.len(),
                forall|k: int|
                    0 <= k < components@.len() ==> (#[trigger] components@[k]).next.meta
                        < h.metas.len(),
                self@ == (ProverView { arena: self@.arena, ..p }),
                in_order(store@, self@),
                same_assignments(h, store@),
                extended(p.arena, self@.arena, f, cs, k as int),
                spawned(h, p.arena, f, cs, k as int, fuel as nat, old(ids).next) == Ok::<
                    (Heap, Seq<FrameView>, u64),
                    Fault,
                >((store@, self@.arena, ids.next)),
            decreases components@.len() - k,
        {
            let ghost h1 = store@;
            let ghost p1 = self@;
            let m: MetaId = components[k].next.meta;
            assert(cs[k as int].next.meta == m && m < h.metas.len());
            if store.meta(m).assignment.is_some() {
                proof {
                    lemma_spawned_fails(
                        h,
                        p.arena,
                        f,
                        cs,
                        k + 1,
                        cs.len() as int,
                        fuel as nat,
                        old(ids).next,
                    );
                }
                return Err(Fault::Malformed);
            }
            let component = Component {
                next: components[k].next,
                unassigned: copy_ids(&components[k].unassigned),
            };
            let mut frame = Frame::new(component, Some(f));
            assert(frame@ == blank_frame(cs[k as int], Some(f)));
            let populated_frame = frame.populate(store, fuel, ids);
            proof {
                lemma_populated_keeps(h1, store@, m, cs[k as int].next.has_rigid_equation);
                lemma_sane_kept(h1, store@);
                assert forall|x: int|
                    0 <= x < p1.arena.len() && (#[trigger] p1.arena[x]).children
                        is Some implies store@.metas[p1.arena[x].meta() as int].assignment
                    == h1.metas[p1.arena[x].meta() as int].assignment by {
                    assert(frame_fits(h1, p1.arena, x));
                }
                lemma_heap_changed(h1, store@, p1);
            }
            match populated_frame {
                Err(e) => {
                    proof {
                        lemma_spawned_fails(
                            h,
                            p.arena,
                            f,
                            cs,
                            k + 1,
                            cs.len() as int,
                            fuel as nat,
                            old(ids).next,
                        );
                    }
                    return Err(e);
                },
                Ok(()) => {},
            }
            self.arena.push(frame);
            let count: usize = self.arena.len();
            proof {
                assert(self@.arena =~= p1.arena.push(frame@));
                assert(count == self@.arena.len());
                lemma_pushed(store@, p1, frame@);
            }
            k = k + 1;
        }
        Ok(())
    }

    /// Completes an assignment: adds the frames for what it leaves, and goes on below, or goes
    /// back if the assignment is pruned.
    pub fn finish(
        &mut self,
        store: &mut Store,
        pending: &Pending,
        difficulty: &Vec<Vec<u64>>,
        pruned: bool,
        fuel: usize,
        ids: &mut Ids,
    ) -> (r: Result<Move, Fault>)
        requires
            opened(old(store)@, old(self)@, *pending),
            rated(group_views(pending.groups@), difficulty@),
        ensures
            match r {
                Ok(m) => finished(
                    old(store)@,
                    old(self)@,
                    pending.frame,
                    group_views(pending.groups@),
                    difficulty@,
                    pruned,
                    fuel as nat,
                    old(ids).next,
                ) == Ok::<(Heap, ProverView, Move, u64), Fault>(
                    (final(store)@, final(self)@, m, final(ids).next),
                ),
                Err(e) => finished(
                    old(store)@,
                    old(self)@,
                    pending.frame,
                    group_views(pending.groups@),
                    difficulty@,
                    pruned,
                    fuel as nat,
                    old(ids).next,
                ) == Err::<(Heap, ProverView, Move, u64), Fault>(e),
            },
            in_order(final(store)@, final(self)@),
            lists_all_leaves(old(self)@, Some(pending.frame)) && (r matches Ok(m) && m
                != Move::Exhausted) ==> lists_all_leaves(final(self)@, None),
            r matches Ok(m) ==> (m == Move::Exhausted <==> pruned && pending.frame == 0),
            r is Ok && !pruned ==> r == Ok::<Move, Fault>(Move::Deeper) && same_assignments(
                old(store)@,
                final(store)@,
            ) && deepened(old(self)@, final(self)@, pending.frame as int),
    {
        let ghost h = store@;
        let ghost p = self@;
        let ghost groups = group_views(pending.groups@);
        let f: usize = pending.frame;
        let components: Vec<Component> = match split(&pending.groups, difficulty) {
            None => {
                return Err(Fault::Malformed);
            },
            Some(cs) => cs,
        };
        let ghost cs = component_views(components@);
        proof {
            lemma_components(groups, difficulty@, groups.len() as int);
            assert forall|b: int| 0 <= b < groups.len() implies (
            #[trigger] components@[b]).next.meta < h.metas.len() && forall|k: int|
                0 <= k < groups[b].0.len() ==> holds(cs[b], (#[trigger] groups[b].0[k]).meta) by {
                assert(component_of(groups[b].0, groups[b].1, difficulty@[b]@) == Some(cs[b]));
                assert(group_fits(h, groups[b].0, groups[b].1));
                assert(pending.groups@[b].members.len() == groups[b].0.len());
                lemma_component_holds(
                    h,
                    groups[b].0,
                    groups[b].1,
                    difficulty@[b]@,
                    cs[b],
                );
                assert(cs[b].next == components@[b].next);
            }
        }
        match self.spawn(store, f, &components, fuel, ids) {
            Err(e) => {
                return Err(e);
            },
            Ok(()) => {},
        }
        let ghost h1 = store@;
        let ghost p1 = self@;
        if self.size == usize::MAX {
            return Err(Fault::Exhausted);
        }
        let first: usize = self.arena.len() - components.len();
        assert(first == p.arena.len());
        let mut children: Vec<usize> = Vec::new();
        let mut i: usize = 0;
        while i < components.len()
            invariant
                i <= components@.len(),
                first == p.arena.len(),
                first + components@.len() <= usize::MAX,
                children@ == new_ids(p.arena.len(), i as nat),
            decreases components@.len() - i,
        {
            children.push(first + i);
            i = i + 1;
            assert(new_ids(p.arena.len(), i as nat) =~= new_ids(
                p.arena.len(),
                (i - 1) as nat,
            ).push((first + (i - 1)) as usize));
        }
        let ghost ids_seq = children@;
        let copied: Vec<usize> = copy_ids(&children);
        self.arena[f].children = Some(copied);
        self.size = self.size + 1;
        let ghost p2 = self@;
        proof {
            let fi = f as int;
            assert(p2.arena =~= with_children(p1.arena, fi, ids_seq));
            assert(h1.metas[p.arena[fi].meta() as int].assignment
                == h.metas[p.arena[fi].meta() as int].assignment) by {
                assert(frame_fits(h, p.arena, fi));
            }
            lemma_cover_kept(h, h1, p.arena[fi], groups);
            assert forall|b: int, k: int|
                0 <= b < groups.len() && 0 <= k < groups[b].0.len() implies holds(
                cs[b],
                (#[trigger] groups[b].0[k]).meta,
            ) by {
                assert(components@[b].next.meta < h.metas.len());
            }
            lemma_children_set(h1, p, p1, f, cs, groups);
            assert(in_order(h1, p2));
            lemma_gave_up(h1, p2, fi);
            if lists_all_leaves(p, Some(f)) {
                assert(extended(p.arena, p1.arena, f, cs, cs.len() as int));
                lemma_leaves_after(h1, p, p2, f, cs);
            }
        }
        if pruned {
            let m = self.give_up(store, f);
            return Ok(m);
        }
        self.frames.append(&mut children);
        proof {
            assert(self@.frames == p2.frames + ids_seq);
            assert(self@ == (ProverView { frames: p2.frames + ids_seq, ..p2 }));
            assert forall|k: int| 0 <= k < self@.frames.len() implies (
            #[trigger] self@.frames[k]) < p2.arena.len() by {
                if k < p2.frames.len() {
                    assert(p2.frames[k] < p2.arena.len());
                } else {
                    assert(self@.frames[k] == ids_seq[k - p2.frames.len()]);
                }
            }
            crate::prover::lemma_relisted(h1, p2, self@.frames);
        }
        Ok(Move::Deeper)
    }
}

/// The groups still hold every metavariable that the assignment leaves.
proof fn lemma_cover_kept(
    h: Heap,
    g: Heap,
    f: FrameView,
    groups: Seq<(Seq<NextInfo>, Seq<MetaInfo>)>,
)
    requires
        groups_cover(h, f, groups),
        g.metas[f.meta() as int].assignment == h.metas[f.meta() as int].assignment,
        h.assigned(f.meta()),
        h.metas.len() <= g.metas.len(),
    ensures
        groups_cover(g, f, groups),
        g.assigned(f.meta()),
{
    assert(args_of(g, f.meta()) == args_of(h, f.meta()));
}

} // verus!
