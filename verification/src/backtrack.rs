//! The tree of frames, and taking parts of it back.
use crate::data::{BindId, Meta, MetaId, TypeBase};
use crate::frames::{candidate_fits, frame_views, lemma_candidate_grown, sane, Frame, FrameView};
use crate::independence::{args_leaves, leaves, ComponentView};
use crate::memory::{Heap, Store};
use crate::meta::{lemma_relieved_shape, present, relieved};
use crate::stats::SearchInfo;
use crate::term::args_of;
use std::rc::Rc;
use vstd::prelude::*;

verus! {

/// The state of a search for a term of a given type.
pub struct Prover {
    /// The metavariable for the whole term.
    pub meta: MetaId,
    /// All frames. The first is the root.
    pub arena: Vec<Frame>,
    /// The frames that are yet to be assigned.
    pub frames: Vec<usize>,
    /// The number of assignments made.
    pub size: usize,
    /// The type, and the binding of the problem.
    pub tb_ref: Rc<TypeBase>,
    pub problem_bind: BindId,
}

/// The view of a `Prover`.
#[verifier::ext_equal]
pub struct ProverView {
    pub meta: MetaId,
    pub arena: Seq<FrameView>,
    pub frames: Seq<usize>,
    pub size: usize,
    pub tb_ref: Rc<TypeBase>,
    pub problem_bind: BindId,
}

impl Prover {
    pub open spec fn view(&self) -> ProverView {
        ProverView {
            meta: self.meta,
            arena: frame_views(self.arena@),
            frames: self.frames@,
            size: self.size,
            tb_ref: self.tb_ref,
            problem_bind: self.problem_bind,
        }
    }
}

/// The number of assigned frames among the first `k`.
pub open spec fn assigned_count(arena: Seq<FrameView>, k: int) -> nat
    decreases k,
{
    if k <= 0 {
        0
    } else {
        assigned_count(arena, k - 1) + if arena[k - 1].children is Some {
            1nat
        } else {
            0
        }
    }
}

/// Whether `y` is one of the metavariables of the component.
pub open spec fn holds(c: ComponentView, y: MetaId) -> bool {
    c.next.meta == y || c.unassigned.contains(y)
}

/// Whether `y` is a metavariable of one of the children.
pub open spec fn covered(arena: Seq<FrameView>, children: Seq<usize>, y: MetaId) -> bool {
    exists|i: int|
        0 <= i < children.len() && holds(arena[#[trigger] children[i] as int].component, y)
}

/// Whether the children come after the frame `x`, and refer back to it.
pub open spec fn children_fit(arena: Seq<FrameView>, x: int, children: Seq<usize>) -> bool {
    forall|i: int|
        0 <= i < children.len() ==> x < (#[trigger] children[i]) < arena.len()
            && arena[children[i] as int].parent == Some(x as usize)
}

/// Whether every metavariable that is left by the assignment of the frame is a metavariable of
/// one of its children.
pub open spec fn children_cover(
    h: Heap,
    arena: Seq<FrameView>,
    f: FrameView,
    children: Seq<usize>,
) -> bool {
    forall|y: MetaId|
        args_of(h, f.meta()).contains(y) || f.component.unassigned.contains(y)
            ==> #[trigger] covered(arena, children, y)
}

/// Whether `x` is among the children of its parent.
pub open spec fn attached(arena: Seq<FrameView>, x: int) -> bool {
    &&& arena[x].parent matches Some(q)
    &&& q < x
    &&& arena[q as int].children matches Some(cs)
    &&& cs.contains(x as usize)
}

/// Whether the frame `x` is in order.
pub open spec fn frame_fits(h: Heap, arena: Seq<FrameView>, x: int) -> bool {
    let f = arena[x];
    &&& f.meta() < h.metas.len()
    &&& forall|k: int|
        0 <= k < f.domain.len() ==> candidate_fits(h, f.meta(), #[trigger] f.domain[k])
    &&& x > 0 ==> f.parent is Some
    &&& f.parent matches Some(q) ==> q < x
    &&& f.children matches Some(cs) ==> {
        &&& h.assigned(f.meta())
        &&& children_fit(arena, x, cs)
        &&& children_cover(h, arena, f, cs)
        &&& x > 0 ==> attached(arena, x)
    }
}

/// Whether no two assigned frames assign the same metavariable.
pub open spec fn distinct_metas(arena: Seq<FrameView>) -> bool {
    forall|x: int, y: int|
        0 <= x < arena.len() && 0 <= y < arena.len() && x != y && (#[trigger] arena[x]).children
            is Some && (#[trigger] arena[y]).children is Some ==> arena[x].meta() != arena[y].meta()
}

/// Whether the search is in order.
pub open spec fn in_order(h: Heap, p: ProverView) -> bool {
    &&& sane(h)
    &&& 0 < p.arena.len() <= usize::MAX
    &&& p.arena[0].parent is None
    &&& p.arena[0].meta() == p.meta
    &&& p.arena[0].component.unassigned.len() == 0
    &&& forall|x: int| 0 <= x < p.arena.len() ==> #[trigger] frame_fits(h, p.arena, x)
    &&& distinct_metas(p.arena)
    &&& forall|i: int| 0 <= i < p.frames.len() ==> (#[trigger] p.frames[i]) < p.arena.len()
    &&& assigned_count(p.arena, p.arena.len() as int) <= p.size
}

/// The heap after `m` has been unassigned.
pub open spec fn released(h: Heap, m: MetaId) -> Heap {
    match h.metas[m as int].assignment {
        None => h,
        Some(a) => relieved(h.with_assignment(m, None), a.changes, a.changes.len()),
    }
}

/// The first position of `x` in `s` from `k` on.
pub open spec fn position(s: Seq<usize>, x: usize, k: int) -> Option<int>
    decreases s.len() - k,
{
    if k >= s.len() {
        None
    } else if s[k] == x {
        Some(k)
    } else {
        position(s, x, k + 1)
    }
}

/// `s` without the first `x`: the last element takes its place.
pub open spec fn without(s: Seq<usize>, x: usize) -> Seq<usize> {
    match position(s, x, 0) {
        None => s,
        Some(i) => s.update(i, s.last()).drop_last(),
    }
}

/// The frame with a record of whether candidates are left.
pub open spec fn noted(f: FrameView) -> FrameView {
    FrameView {
        stats: SearchInfo { unknown: f.stats.unknown || f.domain.len() > 0, ..f.stats },
        ..f
    }
}

/// `own` with what is recorded of the first `k` children.
pub open spec fn gathered(
    own: SearchInfo,
    arena: Seq<FrameView>,
    children: Seq<usize>,
    k: nat,
) -> SearchInfo
    decreases k,
{
    if k == 0 || k > children.len() {
        own
    } else {
        gathered(own, arena, children, (k - 1) as nat).plus(arena[children[k - 1] as int].stats)
    }
}

/// The state after the frame `f` has been taken back: everything below it is taken back and
/// dropped, and the frame is unassigned, given what is recorded of its children, and put back
/// among the frames. Of a frame that is not assigned it is recorded whether candidates are left.
/// `n` is the number of frames.
pub open spec fn retreat(h: Heap, p: ProverView, f: int, n: nat) -> (Heap, ProverView)
    decreases n - f, 1nat, 0nat,
{
    match p.arena[f].children {
        None => (h, ProverView { arena: p.arena.update(f, noted(p.arena[f])), ..p }),
        Some(cs) => {
            let (h1, p1) = retreat_children(h, p, f, cs, cs.len(), n);
            (
                released(h1, p1.arena[f].meta()),
                ProverView {
                    arena: p1.arena.update(
                        f,
                        FrameView {
                            children: None,
                            stats: gathered(p1.arena[f].stats, p1.arena, cs, cs.len()),
                            ..p1.arena[f]
                        },
                    ),
                    frames: p1.frames.push(f as usize),
                    size: (p1.size - 1) as usize,
                    ..p1
                },
            )
        },
    }
}

/// The state after the first `k` children of the frame `f` have been taken back and dropped.
pub open spec fn retreat_children(
    h: Heap,
    p: ProverView,
    f: int,
    children: Seq<usize>,
    k: nat,
    n: nat,
) -> (Heap, ProverView)
    decreases n - f, 0nat, k,
{
    if k == 0 || k > children.len() {
        (h, p)
    } else {
        let (h1, p1) = retreat_children(h, p, f, children, (k - 1) as nat, n);
        let c = children[k - 1] as int;
        if f < c < n {
            let (h2, p2) = retreat(h1, p1, c, n);
            (
                h2,
                ProverView {
                    arena: p2.arena.update(
                        c,
                        FrameView { domain: Seq::empty(), ..p2.arena[c] },
                    ),
                    frames: without(p2.frames, c as usize),
                    ..p2
                },
            )
        } else {
            (h1, p1)
        }
    }
}

/// Whether the frame `x` is below the frame `f`.
pub open spec fn below(arena: Seq<FrameView>, x: int, f: int) -> bool
    decreases x,
{
    match arena[x].parent {
        None => false,
        Some(q) => q < x && (q == f || below(arena, q as int, f)),
    }
}

/// Whether the frame `x` hangs together with the root.
pub open spec fn live(arena: Seq<FrameView>, x: int) -> bool
    decreases x,
{
    x == 0 || (attached(arena, x) && live(arena, arena[x].parent->0 as int))
}

/// Whether `frames` lists frames that are live and unassigned, each once.
pub open spec fn lists_leaves(p: ProverView) -> bool {
    &&& p.frames.no_duplicates()
    &&& forall|i: int|
        0 <= i < p.frames.len() ==> live(p.arena, (#[trigger] p.frames[i]) as int)
            && p.arena[p.frames[i] as int].children is None
}

/// Whether `frames` lists exactly the frames that are live and unassigned, but for `hole`.
pub open spec fn lists_all_leaves(p: ProverView, hole: Option<usize>) -> bool {
    &&& lists_leaves(p)
    &&& forall|x: int|
        0 <= x < p.arena.len() && #[trigger] live(p.arena, x) && p.arena[x].children is None
            ==> hole == Some(x as usize) || p.frames.contains(x as usize)
    &&& hole matches Some(x) ==> x < p.arena.len() && live(p.arena, x as int)
        && p.arena[x as int].children is None && !p.frames.contains(x)
}

pub proof fn lemma_released(h: Heap, m: MetaId)
    requires
        sane(h),
        m < h.metas.len(),
    ensures
        sane(released(h, m)),
        released(h, m).metas.len() == h.metas.len(),
        released(h, m).binds == h.binds,
        released(h, m).metas[m as int].assignment is None,
        forall|x: int|
            0 <= x < h.metas.len() && x != m ==> (#[trigger] released(h, m).metas[x]).assignment
                == h.metas[x].assignment,
{
    if let Some(a) = h.metas[m as int].assignment {
        let h1 = h.with_assignment(m, None);
        assert(present(h, a.changes));
        assert(present(h1, a.changes));
        lemma_relieved_shape(h1, a.changes, a.changes.len());
    }
    let g = released(h, m);
    assert forall|x: int|
        0 <= x < g.metas.len() && (#[trigger] g.metas[x]).assignment is Some implies present(
        g,
        g.metas[x].assignment->0.changes,
    ) by {
        assert(present(h, h.metas[x].assignment->0.changes));
    }
    assert forall|x: int, i: int|
        #![trigger g.metas[x].assignment->0.args[i]]
        0 <= x < g.metas.len() && g.metas[x].assignment is Some && 0 <= i
            < g.metas[x].assignment->0.args.len() implies x < g.metas[x].assignment->0.args[i]
        < g.metas.len() by {
        assert(g.metas[x].assignment == h.metas[x].assignment);
        assert(x < h.metas[x].assignment->0.args[i]);
    }
}

pub proof fn lemma_position(s: Seq<usize>, x: usize, k: int)
    requires
        0 <= k,
    ensures
        match position(s, x, k) {
            Some(i) => k <= i < s.len() && s[i] == x,
            None => forall|j: int| k <= j < s.len() ==> s[j] != x,
        },
    decreases s.len() - k,
{
    if k < s.len() && s[k] != x {
        lemma_position(s, x, k + 1);
    }
}

proof fn lemma_without(s: Seq<usize>, x: usize)
    ensures
        forall|y: usize| #[trigger] without(s, x).contains(y) ==> s.contains(y),
        forall|y: usize| s.contains(y) && y != x ==> #[trigger] without(s, x).contains(y),
        s.no_duplicates() ==> without(s, x).no_duplicates() && !without(s, x).contains(x),
        without(s, x).len() <= s.len(),
{
    lemma_position(s, x, 0);
    let r = without(s, x);
    if let Some(i) = position(s, x, 0) {
        assert forall|y: usize| #[trigger] r.contains(y) implies s.contains(y) by {
            let j = choose|j: int| 0 <= j < r.len() && r[j] == y;
            if j == i {
                assert(s[s.len() - 1] == y);
            } else {
                assert(s[j] == y);
            }
        }
        assert forall|y: usize| s.contains(y) && y != x implies #[trigger] r.contains(y) by {
            let j = choose|j: int| 0 <= j < s.len() && s[j] == y;
            if j == s.len() - 1 {
                assert(r[i] == y);
            } else {
                assert(r[j] == y);
            }
        }
        if s.no_duplicates() {
            assert forall|a: int, b: int| 0 <= a < r.len() && 0 <= b < r.len() && a != b implies r[a]
                != r[b] by {
                let aa = if a == i {
                    s.len() - 1
                } else {
                    a
                };
                let bb = if b == i {
                    s.len() - 1
                } else {
                    b
                };
                assert(s[aa] != s[bb]);
            }
            if r.contains(x) {
                let j = choose|j: int| 0 <= j < r.len() && r[j] == x;
                let jj = if j == i {
                    s.len() - 1
                } else {
                    j
                };
                assert(s[jj] == s[i]);
                assert(false);
            }
        }
    }
}

pub proof fn lemma_count_update(arena: Seq<FrameView>, i: int, f: FrameView, k: int)
    requires
        0 <= i < arena.len(),
        0 <= k <= arena.len(),
    ensures
        assigned_count(arena.update(i, f), k) == assigned_count(arena, k) + (if i < k {
            (if f.children is Some {
                1int
            } else {
                0
            }) - (if arena[i].children is Some {
                1int
            } else {
                0
            })
        } else {
            0
        }),
    decreases k,
{
    if k > 0 {
        lemma_count_update(arena, i, f, k - 1);
    }
}

/// Whether the frame `x` is, or is below, one of the first `k` children.
spec fn dropped(arena: Seq<FrameView>, children: Seq<usize>, k: int, x: int) -> bool {
    exists|i: int|
        0 <= i < k && (x == #[trigger] children[i] || below(arena, x, children[i] as int))
}

/// Whether the frames have the same parents and components.
pub open spec fn same_tree(a: Seq<FrameView>, b: Seq<FrameView>) -> bool {
    &&& a.len() == b.len()
    &&& forall|x: int|
        0 <= x < a.len() ==> (#[trigger] b[x]).parent == a[x].parent && b[x].component
            == a[x].component
}

proof fn lemma_below_same(a: Seq<FrameView>, b: Seq<FrameView>, x: int, f: int)
    requires
        same_tree(a, b),
        0 <= x < a.len(),
    ensures
        below(a, x, f) == below(b, x, f),
    decreases x,
{
    assert(b[x].parent == a[x].parent);
    if let Some(q) = a[x].parent {
        if q < x {
            lemma_below_same(a, b, q as int, f);
        }
    }
}

proof fn lemma_below_greater(a: Seq<FrameView>, x: int, f: int)
    ensures
        below(a, x, f) ==> f < x,
    decreases x,
{
    if let Some(q) = a[x].parent {
        if q < x && q != f {
            lemma_below_greater(a, q as int, f);
        }
    }
}

pub proof fn lemma_below_trans(a: Seq<FrameView>, x: int, y: int, z: int)
    requires
        below(a, x, y),
        below(a, y, z),
    ensures
        below(a, x, z),
    decreases x,
{
    if let Some(q) = a[x].parent {
        if q != y {
            lemma_below_trans(a, q as int, y, z);
        }
    }
}

proof fn lemma_dropped_same(a: Seq<FrameView>, b: Seq<FrameView>, cs: Seq<usize>, k: int)
    requires
        same_tree(a, b),
    ensures
        forall|x: int| 0 <= x < a.len() ==> #[trigger] dropped(a, cs, k, x) == dropped(b, cs, k, x),
{
    assert forall|x: int| 0 <= x < a.len() implies #[trigger] dropped(a, cs, k, x) == dropped(
        b,
        cs,
        k,
        x,
    ) by {
        assert forall|i: int| 0 <= i < k implies below(a, x, #[trigger] cs[i] as int) == below(
            b,
            x,
            cs[i] as int,
        ) by {
            lemma_below_same(a, b, x, cs[i] as int);
        }
        if dropped(a, cs, k, x) {
            let i = choose|i: int|
                0 <= i < k && (x == #[trigger] cs[i] || below(a, x, cs[i] as int));
            assert(x == cs[i] || below(b, x, cs[i] as int));
        }
        if dropped(b, cs, k, x) {
            let i = choose|i: int|
                0 <= i < k && (x == #[trigger] cs[i] || below(b, x, cs[i] as int));
            assert(x == cs[i] || below(a, x, cs[i] as int));
        }
    }
}

/// What is dropped with the children of `f` is below `f`.
proof fn lemma_dropped_below(arena: Seq<FrameView>, f: int, cs: Seq<usize>, k: int, x: int)
    requires
        children_fit(arena, f, cs),
        0 <= f,
        0 <= k <= cs.len(),
        dropped(arena, cs, k, x),
    ensures
        below(arena, x, f),
        f < x,
{
    let i = choose|i: int|
        0 <= i < k && (x == #[trigger] cs[i] || below(arena, x, cs[i] as int));
    let c = cs[i] as int;
    assert(f < c < arena.len() && arena[c].parent == Some(f as usize));
    assert(below(arena, c, f));
    if x != c {
        lemma_below_trans(arena, x, c, f);
        lemma_below_greater(arena, x, c);
    }
}

/// A frame below `f` that is assigned, or attached, hangs on one of the children of `f`.
proof fn lemma_below_dropped(h: Heap, p: ProverView, f: int, x: int)
    requires
        forall|y: int| 0 <= y < p.arena.len() ==> #[trigger] frame_fits(h, p.arena, y),
        0 <= f < p.arena.len() <= usize::MAX,
        0 <= x < p.arena.len(),
        below(p.arena, x, f),
        attached(p.arena, x),
    ensures
        p.arena[f].children is Some,
        dropped(p.arena, p.arena[f].children->0, p.arena[f].children->0.len() as int, x),
    decreases x,
{
    let q = p.arena[x].parent->0 as int;
    if q == f {
        let cs = p.arena[f].children->0;
        let i = choose|i: int| 0 <= i < cs.len() && cs[i] == x as usize;
        assert(x == cs[i]);
    } else {
        assert(frame_fits(h, p.arena, q));
        assert(q > 0) by {
            assert(below(p.arena, q, f));
            lemma_below_greater(p.arena, q, f);
        }
        lemma_below_dropped(h, p, f, q);
        let cs = p.arena[f].children->0;
        let i = choose|i: int|
            0 <= i < cs.len() && (q == #[trigger] cs[i] || below(p.arena, q, cs[i] as int));
        assert(below(p.arena, x, cs[i] as int));
    }
}

/// What taking back a frame leaves and what it changes.
pub proof fn lemma_retreat(h: Heap, p: ProverView, f: int, n: nat)
    requires
        in_order(h, p),
        n == p.arena.len(),
        0 <= f < n,
    ensures
        ({
            let (g, q) = retreat(h, p, f, n);
            &&& in_order(g, q)
            &&& same_tree(p.arena, q.arena)
            &&& q.meta == p.meta
            &&& g.metas.len() == h.metas.len()
            &&& g.binds == h.binds
            &&& p.size - q.size == assigned_count(p.arena, n as int) - assigned_count(
                q.arena,
                n as int,
            )
            &&& q.arena[f] == FrameView { children: None, stats: q.arena[f].stats, ..p.arena[f] }
            &&& p.arena[f].children is Some ==> g.metas[p.arena[f].meta() as int].assignment is None
            &&& forall|x: int|
                0 <= x < n && x != f && !below(p.arena, x, f) ==> #[trigger] q.arena[x]
                    == p.arena[x]
            &&& forall|x: int|
                0 <= x < n && below(p.arena, x, f) ==> (#[trigger] q.arena[x]).children is None
        }),
    decreases n - f, 1nat, 0nat,
{
    assert(frame_fits(h, p.arena, f));
    match p.arena[f].children {
        None => {
            let q = retreat(h, p, f, n).1;
            crate::prover::lemma_domain_changed(h, p, q);
            crate::prover::lemma_same_count(p.arena, q.arena, n as int);
            assert forall|x: int| 0 <= x < n && below(p.arena, x, f) implies (
            #[trigger] p.arena[x]).children is None by {
                if p.arena[x].children is Some {
                    assert(frame_fits(h, p.arena, x));
                    lemma_below_greater(p.arena, x, f);
                    lemma_below_dropped(h, p, f, x);
                }
            }
        },
        Some(cs) => {
            let k = cs.len();
            lemma_retreat_children(h, p, f, cs, k, n);
            let (h1, p1) = retreat_children(h, p, f, cs, k, n);
            let m = p1.arena[f].meta();
            let g = released(h1, m);
            let q = retreat(h, p, f, n).1;
            lemma_dropped_same(p.arena, p1.arena, cs, k as int);
            assert(!dropped(p.arena, cs, k as int, f)) by {
                if dropped(p.arena, cs, k as int, f) {
                    lemma_dropped_below(p.arena, f, cs, k as int, f);
                }
            }
            assert(p1.arena[f] == p.arena[f]);
            assert(frame_fits(h1, p1.arena, f));
            lemma_released(h1, m);
            lemma_count_update(p1.arena, f, q.arena[f], n as int);
            lemma_count_positive(p1.arena, f, n as int);
            assert(same_tree(p1.arena, q.arena));
            assert forall|x: int| 0 <= x < n && #[trigger] below(p1.arena, x, f) == below(
                p.arena,
                x,
                f,
            ) || !(0 <= x < n) by {
                if 0 <= x < n {
                    lemma_below_same(p.arena, p1.arena, x, f);
                }
            }
            assert forall|x: int| 0 <= x < n implies #[trigger] frame_fits(g, q.arena, x) by {
                assert(frame_fits(h1, p1.arena, x));
                let fr = q.arena[x];
                assert forall|j: int| 0 <= j < fr.domain.len() implies candidate_fits(
                    g,
                    fr.meta(),
                    #[trigger] fr.domain[j],
                ) by {
                    lemma_candidate_grown(h1, g, fr.meta(), p1.arena[x].domain[j]);
                }
                if fr.children is Some {
                    let ds = fr.children->0;
                    assert(x != f);
                    assert(p1.arena[x].meta() != p1.arena[f].meta());
                    assert(g.metas[fr.meta() as int].assignment
                        == h1.metas[fr.meta() as int].assignment);
                    assert(children_fit(q.arena, x, ds)) by {
                        assert forall|i: int| 0 <= i < ds.len() implies x < (#[trigger] ds[i])
                            < q.arena.len() && q.arena[ds[i] as int].parent == Some(
                            x as usize,
                        ) by {
                            assert(p1.arena[ds[i] as int].parent == Some(x as usize));
                        }
                    }
                    assert(children_cover(g, q.arena, fr, ds)) by {
                        assert forall|y: MetaId|
                            args_of(g, fr.meta()).contains(y)
                                || fr.component.unassigned.contains(
                                y,
                            ) implies #[trigger] covered(q.arena, ds, y) by {
                            assert(covered(p1.arena, ds, y));
                            let i = choose|i: int|
                                0 <= i < ds.len() && holds(
                                    p1.arena[#[trigger] ds[i] as int].component,
                                    y,
                                );
                            assert(p1.arena[ds[i] as int].parent == Some(x as usize));
                            assert(holds(q.arena[ds[i] as int].component, y));
                        }
                    }
                    if x > 0 {
                        assert(attached(p1.arena, x));
                        let pq = p1.arena[x].parent->0;
                        if pq == f {
                            let i = choose|i: int| 0 <= i < cs.len() && cs[i] == x as usize;
                            assert(x == cs[i]);
                            assert(dropped(p.arena, cs, k as int, x));
                            assert(false);
                        }
                        assert(attached(q.arena, x));
                    }
                }
            }
            assert forall|x: int| 0 <= x < n && x != f && !below(
                p.arena,
                x,
                f,
            ) implies #[trigger] q.arena[x] == p.arena[x] by {
                if dropped(p.arena, cs, k as int, x) {
                    lemma_dropped_below(p.arena, f, cs, k as int, x);
                }
            }
            assert forall|x: int| 0 <= x < n && below(p.arena, x, f) implies (
            #[trigger] q.arena[x]).children is None by {
                lemma_below_greater(p.arena, x, f);
                if !dropped(p.arena, cs, k as int, x) && p.arena[x].children is Some {
                    assert(frame_fits(h, p.arena, x));
                    lemma_below_dropped(h, p, f, x);
                }
            }
        },
    }
}

proof fn lemma_count_positive(arena: Seq<FrameView>, f: int, k: int)
    requires
        0 <= f < k <= arena.len(),
        arena[f].children is Some,
    ensures
        assigned_count(arena, k) >= 1,
    decreases k,
{
    if f < k - 1 {
        lemma_count_positive(arena, f, k - 1);
    }
}

/// What taking back the first children of a frame leaves and what it changes.
proof fn lemma_retreat_children(
    h: Heap,
    p: ProverView,
    f: int,
    cs: Seq<usize>,
    k: nat,
    n: nat,
)
    requires
        in_order(h, p),
        n == p.arena.len(),
        0 <= f < n,
        p.arena[f].children == Some(cs),
        k <= cs.len(),
    ensures
        ({
            let (g, q) = retreat_children(h, p, f, cs, k, n);
            &&& in_order(g, q)
            &&& same_tree(p.arena, q.arena)
            &&& q.meta == p.meta
            &&& g.metas.len() == h.metas.len()
            &&& g.binds == h.binds
            &&& p.size - q.size == assigned_count(p.arena, n as int) - assigned_count(
                q.arena,
                n as int,
            )
            &&& forall|x: int|
                0 <= x < n && !dropped(p.arena, cs, k as int, x) ==> #[trigger] q.arena[x]
                    == p.arena[x]
            &&& forall|x: int|
                0 <= x < n && dropped(p.arena, cs, k as int, x) ==> (#[trigger] q.arena[x]).children
                    is None
        }),
    decreases n - f, 0nat, k,
{
    if k > 0 {
        lemma_retreat_children(h, p, f, cs, (k - 1) as nat, n);
        let (h1, p1) = retreat_children(h, p, f, cs, (k - 1) as nat, n);
        let c = cs[k - 1] as int;
        assert(frame_fits(h, p.arena, f));
        assert(f < c < n);
        lemma_retreat(h1, p1, c, n);
        let (h2, p2) = retreat(h1, p1, c, n);
        let (g, q) = retreat_children(h, p, f, cs, k, n);
        lemma_count_update(p2.arena, c, q.arena[c], n as int);
        lemma_without(p2.frames, c as usize);
        assert(same_tree(p2.arena, q.arena));
        assert forall|x: int| 0 <= x < n implies #[trigger] frame_fits(g, q.arena, x) by {
            assert(frame_fits(h2, p2.arena, x));
            let fr = q.arena[x];
            if fr.children is Some {
                let ds = fr.children->0;
                assert(children_fit(q.arena, x, ds)) by {
                    assert forall|i: int| 0 <= i < ds.len() implies x < (#[trigger] ds[i])
                        < q.arena.len() && q.arena[ds[i] as int].parent == Some(x as usize) by {
                        assert(p2.arena[ds[i] as int].parent == Some(x as usize));
                    }
                }
                assert(children_cover(g, q.arena, fr, ds)) by {
                    assert forall|y: MetaId|
                        args_of(g, fr.meta()).contains(y) || fr.component.unassigned.contains(
                            y,
                        ) implies #[trigger] covered(q.arena, ds, y) by {
                        assert(covered(p2.arena, ds, y));
                        let i = choose|i: int|
                            0 <= i < ds.len() && holds(
                                p2.arena[#[trigger] ds[i] as int].component,
                                y,
                            );
                        assert(p2.arena[ds[i] as int].parent == Some(x as usize));
                        assert(holds(q.arena[ds[i] as int].component, y));
                    }
                }
                if x > 0 {
                    assert(attached(p2.arena, x));
                    assert(attached(q.arena, x));
                }
            }
        }
        assert forall|i: int| 0 <= i < q.frames.len() implies (#[trigger] q.frames[i])
            < q.arena.len() by {
            assert(q.frames.contains(q.frames[i]));
            assert(p2.frames.contains(q.frames[i]));
        }
        assert forall|x: int| 0 <= x < n && !dropped(
            p.arena,
            cs,
            k as int,
            x,
        ) implies #[trigger] q.arena[x] == p.arena[x] by {
            assert(cs[k - 1] != x && !below(p.arena, x, c));
            lemma_below_same(p.arena, p1.arena, x, c);
            assert(!dropped(p.arena, cs, k - 1, x)) by {
                if dropped(p.arena, cs, k - 1, x) {
                    let i = choose|i: int|
                        0 <= i < k - 1 && (x == #[trigger] cs[i] || below(
                            p.arena,
                            x,
                            cs[i] as int,
                        ));
                    assert(x == cs[i] || below(p.arena, x, cs[i] as int));
                }
            }
            assert(p1.arena[x] == p.arena[x]);
        }
        assert forall|x: int| 0 <= x < n && dropped(p.arena, cs, k as int, x) implies (
        #[trigger] q.arena[x]).children is None by {
            let i = choose|i: int|
                0 <= i < k && (x == #[trigger] cs[i] || below(p.arena, x, cs[i] as int));
            lemma_below_same(p.arena, p1.arena, x, c);
            if i < k - 1 {
                assert(dropped(p.arena, cs, k - 1, x));
                assert(p1.arena[x].children is None);
            }
            if x != c && !below(p1.arena, x, c) {
                assert(p2.arena[x] == p1.arena[x]);
            }
        }
    }
}

proof fn lemma_live_kept(a: Seq<FrameView>, b: Seq<FrameView>, x: int)
    requires
        same_tree(a, b),
        0 <= x < a.len(),
        live(a, x),
        forall|z: int|
            0 <= z < a.len() && #[trigger] below(a, x, z) ==> b[z].children == a[z].children,
    ensures
        live(b, x),
    decreases x,
{
    if x != 0 {
        let q = a[x].parent->0 as int;
        assert(below(a, x, q));
        assert(b[x].parent == a[x].parent);
        assert forall|z: int| 0 <= z < a.len() && #[trigger] below(a, q, z) implies b[z].children
            == a[z].children by {
            assert(below(a, x, z));
        }
        lemma_live_kept(a, b, q);
        assert(attached(b, x));
    }
}

/// What a frame that is not dropped hangs on is not dropped either.
proof fn lemma_not_dropped(arena: Seq<FrameView>, cs: Seq<usize>, k: int, x: int, z: int)
    requires
        below(arena, x, z),
        !dropped(arena, cs, k, x),
    ensures
        !dropped(arena, cs, k, z),
{
    if dropped(arena, cs, k, z) {
        let i = choose|i: int|
            0 <= i < k && (z == #[trigger] cs[i] || below(arena, z, cs[i] as int));
        if z != cs[i] {
            lemma_below_trans(arena, x, z, cs[i] as int);
        }
        assert(below(arena, x, cs[i] as int));
    }
}

/// Which frames are listed after a frame has been taken back.
proof fn lemma_retreat_frames(h: Heap, p: ProverView, f: int, n: nat)
    requires
        in_order(h, p),
        lists_leaves(p),
        n == p.arena.len(),
        0 <= f < n,
    ensures
        ({
            let q = retreat(h, p, f, n).1;
            &&& q.frames.no_duplicates()
            &&& forall|y: usize| #[trigger]
                q.frames.contains(y) <==> (p.frames.contains(y) && !below(p.arena, y as int, f))
                    || (y == f && p.arena[f].children is Some)
        }),
    decreases n - f, 1nat, 0nat,
{
    assert(frame_fits(h, p.arena, f));
    let q = retreat(h, p, f, n).1;
    match p.arena[f].children {
        None => {
            assert forall|y: usize| #[trigger] p.frames.contains(y) implies !below(
                p.arena,
                y as int,
                f,
            ) by {
                let i = choose|i: int| 0 <= i < p.frames.len() && p.frames[i] == y;
                assert(live(p.arena, p.frames[i] as int));
                if below(p.arena, y as int, f) {
                    lemma_below_greater(p.arena, y as int, f);
                    assert(attached(p.arena, y as int));
                    lemma_below_dropped(h, p, f, y as int);
                }
            }
        },
        Some(cs) => {
            let k = cs.len();
            lemma_retreat_children_frames(h, p, f, cs, k, n);
            let p1 = retreat_children(h, p, f, cs, k, n).1;
            assert(q.frames == p1.frames.push(f as usize));
            assert(!p.frames.contains(f as usize)) by {
                if p.frames.contains(f as usize) {
                    let i = choose|i: int| 0 <= i < p.frames.len() && p.frames[i] == f as usize;
                    assert(p.arena[p.frames[i] as int].children is None);
                }
            }
            assert(!p1.frames.contains(f as usize));
            assert forall|y: usize| #[trigger]
                q.frames.contains(y) <==> (p.frames.contains(y) && !below(p.arena, y as int, f))
                    || (y == f && p.arena[f].children is Some) by {
                assert(q.frames.contains(y) <==> p1.frames.contains(y) || y == f) by {
                    if p1.frames.contains(y) {
                        let i = choose|i: int| 0 <= i < p1.frames.len() && p1.frames[i] == y;
                        assert(q.frames[i] == y);
                    }
                    if y == f {
                        assert(q.frames[p1.frames.len() as int] == y);
                    }
                    if q.frames.contains(y) {
                        let i = choose|i: int| 0 <= i < q.frames.len() && q.frames[i] == y;
                        if i < p1.frames.len() {
                            assert(p1.frames[i] == y);
                        }
                    }
                }
                if p.frames.contains(y) {
                    let i = choose|i: int| 0 <= i < p.frames.len() && p.frames[i] == y;
                    assert(live(p.arena, p.frames[i] as int));
                    if below(p.arena, y as int, f) {
                        lemma_below_greater(p.arena, y as int, f);
                        lemma_below_dropped(h, p, f, y as int);
                    }
                    if dropped(p.arena, cs, k as int, y as int) {
                        lemma_dropped_below(p.arena, f, cs, k as int, y as int);
                    }
                }
            }
            assert(q.frames.no_duplicates()) by {
                assert forall|a: int, b: int|
                    0 <= a < q.frames.len() && 0 <= b < q.frames.len() && a != b implies q.frames[a]
                    != q.frames[b] by {
                    if a < p1.frames.len() {
                        assert(p1.frames.contains(p1.frames[a]));
                    }
                    if b < p1.frames.len() {
                        assert(p1.frames.contains(p1.frames[b]));
                    }
                }
            }
        },
    }
}

/// Which frames are listed after the first children of a frame have been taken back.
proof fn lemma_retreat_children_frames(
    h: Heap,
    p: ProverView,
    f: int,
    cs: Seq<usize>,
    k: nat,
    n: nat,
)
    requires
        in_order(h, p),
        lists_leaves(p),
        n == p.arena.len(),
        0 <= f < n,
        p.arena[f].children == Some(cs),
        k <= cs.len(),
    ensures
        ({
            let q = retreat_children(h, p, f, cs, k, n).1;
            &&& lists_leaves(q)
            &&& forall|y: usize| #[trigger]
                q.frames.contains(y) <==> p.frames.contains(y) && !dropped(
                    p.arena,
                    cs,
                    k as int,
                    y as int,
                )
        }),
    decreases n - f, 0nat, k,
{
    let q = retreat_children(h, p, f, cs, k, n).1;
    lemma_retreat_children(h, p, f, cs, k, n);
    if k > 0 {
        lemma_retreat_children(h, p, f, cs, (k - 1) as nat, n);
        lemma_retreat_children_frames(h, p, f, cs, (k - 1) as nat, n);
        let (h1, p1) = retreat_children(h, p, f, cs, (k - 1) as nat, n);
        let c = cs[k - 1] as int;
        assert(frame_fits(h, p.arena, f));
        assert(f < c < n);
        lemma_retreat_frames(h1, p1, c, n);
        let p2 = retreat(h1, p1, c, n).1;
        lemma_without(p2.frames, c as usize);
        assert forall|y: usize| #[trigger]
            q.frames.contains(y) <==> p.frames.contains(y) && !dropped(
                p.arena,
                cs,
                k as int,
                y as int,
            ) by {
            assert(q.frames.contains(y) <==> p2.frames.contains(y) && y != c);
            if p.frames.contains(y) {
                let i = choose|i: int| 0 <= i < p.frames.len() && p.frames[i] == y;
                assert(p.frames[i] < n);
                lemma_below_same(p.arena, p1.arena, y as int, c);
            }
            if p.frames.contains(y) && dropped(p.arena, cs, k as int, y as int) {
                let i = choose|i: int|
                    0 <= i < k && (y == #[trigger] cs[i] || below(p.arena, y as int, cs[i] as int));
                if i < k - 1 {
                    assert(dropped(p.arena, cs, k - 1, y as int));
                }
            }
            if p.frames.contains(y) && !dropped(p.arena, cs, k as int, y as int) {
                assert(cs[k - 1] != y && !below(p.arena, y as int, c));
                if dropped(p.arena, cs, k - 1, y as int) {
                    let i = choose|i: int|
                        0 <= i < k - 1 && (y == #[trigger] cs[i] || below(
                            p.arena,
                            y as int,
                            cs[i] as int,
                        ));
                    assert(y == cs[i] || below(p.arena, y as int, cs[i] as int));
                }
            }
        }
        assert forall|i: int| 0 <= i < q.frames.len() implies live(
            q.arena,
            (#[trigger] q.frames[i]) as int,
        ) && q.arena[q.frames[i] as int].children is None by {
            let y = q.frames[i];
            assert(q.frames.contains(y));
            let j = choose|j: int| 0 <= j < p.frames.len() && p.frames[j] == y;
            assert(live(p.arena, p.frames[j] as int));
            assert forall|z: int|
                0 <= z < n && #[trigger] below(p.arena, y as int, z) implies q.arena[z].children
                == p.arena[z].children by {
                lemma_not_dropped(p.arena, cs, k as int, y as int, z);
            }
            lemma_live_kept(p.arena, q.arena, y as int);
            assert(q.arena[y as int] == p.arena[y as int]);
        }
    } else {
        assert forall|y: usize| !#[trigger] dropped(p.arena, cs, 0, y as int) by {}
    }
}

/// What is recorded of the frame `f` and everything below it. Of a frame that is not assigned this
/// tells whether candidates are left.
pub open spec fn collected(arena: Seq<FrameView>, f: int, n: nat) -> SearchInfo
    decreases n - f, 1nat, 0nat,
{
    match arena[f].children {
        None => noted(arena[f]).stats,
        Some(cs) => collected_children(arena, f, cs, cs.len(), n),
    }
}

/// What is recorded of the frame `f`, of its first `k` children and of everything below those.
pub open spec fn collected_children(
    arena: Seq<FrameView>,
    f: int,
    children: Seq<usize>,
    k: nat,
    n: nat,
) -> SearchInfo
    decreases n - f, 0nat, k,
{
    if k == 0 || k > children.len() {
        arena[f].stats
    } else {
        let c = children[k - 1] as int;
        collected_children(arena, f, children, (k - 1) as nat, n).plus(
            if f < c < n {
                collected(arena, c, n)
            } else {
                SearchInfo::none()
            },
        )
    }
}

/// What is below one child of `f` is not below another.
proof fn lemma_apart(a: Seq<FrameView>, f: int, c: int, d: int, x: int)
    requires
        0 <= f < c,
        f < d,
        c != d,
        a[c].parent == Some(f as usize),
        a[d].parent == Some(f as usize),
        f <= usize::MAX,
        x == c || below(a, x, c),
    ensures
        x != d,
        !below(a, x, d),
    decreases x,
{
    lemma_below_greater(a, f, c);
    lemma_below_greater(a, f, d);
    lemma_below_greater(a, x, c);
    if x != c && x != d {
        lemma_apart(a, f, c, d, a[x].parent->0 as int);
    }
}

/// What is collected depends on the frames that it is collected of only.
proof fn lemma_collected_same(h: Heap, p: ProverView, b: Seq<FrameView>, x: int, n: nat)
    requires
        in_order(h, p),
        n == p.arena.len(),
        0 <= x < n,
        forall|y: int|
            0 <= y < n && (y == x || below(p.arena, y, x)) ==> #[trigger] b[y] == p.arena[y],
    ensures
        collected(b, x, n) == collected(p.arena, x, n),
    decreases n - x, 1nat, 0nat,
{
    assert(b[x] == p.arena[x]);
    if let Some(cs) = p.arena[x].children {
        lemma_collected_children_same(h, p, b, x, cs, cs.len(), n);
    }
}

proof fn lemma_collected_children_same(
    h: Heap,
    p: ProverView,
    b: Seq<FrameView>,
    x: int,
    cs: Seq<usize>,
    k: nat,
    n: nat,
)
    requires
        in_order(h, p),
        n == p.arena.len(),
        0 <= x < n,
        p.arena[x].children == Some(cs),
        k <= cs.len(),
        forall|y: int|
            0 <= y < n && (y == x || below(p.arena, y, x)) ==> #[trigger] b[y] == p.arena[y],
    ensures
        collected_children(b, x, cs, k, n) == collected_children(p.arena, x, cs, k, n),
    decreases n - x, 0nat, k,
{
    assert(b[x] == p.arena[x]);
    if k > 0 {
        lemma_collected_children_same(h, p, b, x, cs, (k - 1) as nat, n);
        assert(frame_fits(h, p.arena, x));
        let c = cs[k - 1] as int;
        assert(x < c < n && p.arena[c].parent == Some(x as usize));
        assert(below(p.arena, c, x));
        assert forall|y: int|
            0 <= y < n && (y == c || below(p.arena, y, c)) implies #[trigger] b[y]
            == p.arena[y] by {
            if y != c {
                lemma_below_trans(p.arena, y, c, x);
            }
        }
        lemma_collected_same(h, p, b, c, n);
    }
}

/// A frame that is taken back gathers what is recorded of itself and of everything below it.
proof fn lemma_collected(h: Heap, p: ProverView, f: int, n: nat)
    requires
        in_order(h, p),
        n == p.arena.len(),
        0 <= f < n,
    ensures
        retreat(h, p, f, n).1.arena[f].stats == collected(p.arena, f, n),
    decreases n - f, 1nat, 0nat,
{
    assert(frame_fits(h, p.arena, f));
    if let Some(cs) = p.arena[f].children {
        let k = cs.len();
        lemma_retreat_children(h, p, f, cs, k, n);
        lemma_collected_children(h, p, f, cs, k, n);
        let p1 = retreat_children(h, p, f, cs, k, n).1;
        if dropped(p.arena, cs, k as int, f) {
            lemma_dropped_below(p.arena, f, cs, k as int, f);
        }
        assert(p1.arena[f] == p.arena[f]);
        lemma_gathered(p.arena, p1.arena, f, cs, k, n);
    }
}

proof fn lemma_gathered(
    a: Seq<FrameView>,
    b: Seq<FrameView>,
    f: int,
    cs: Seq<usize>,
    k: nat,
    n: nat,
)
    requires
        k <= cs.len(),
        b[f].stats == a[f].stats,
        forall|i: int|
            0 <= i < cs.len() ==> f < (#[trigger] cs[i]) < n && b[cs[i] as int].stats == collected(
                a,
                cs[i] as int,
                n,
            ),
    ensures
        gathered(b[f].stats, b, cs, k) == collected_children(a, f, cs, k, n),
    decreases k,
{
    if k > 0 {
        lemma_gathered(a, b, f, cs, (k - 1) as nat, n);
        assert(f < cs[k - 1] < n);
    }
}

proof fn lemma_collected_children(
    h: Heap,
    p: ProverView,
    f: int,
    cs: Seq<usize>,
    k: nat,
    n: nat,
)
    requires
        in_order(h, p),
        n == p.arena.len(),
        0 <= f < n,
        p.arena[f].children == Some(cs),
        k <= cs.len(),
    ensures
        forall|i: int|
            #![trigger cs[i]]
            0 <= i < k ==> {
                let x = retreat_children(h, p, f, cs, k, n).1.arena[cs[i] as int];
                x.domain.len() == 0 && x.stats == collected(p.arena, cs[i] as int, n)
            },
    decreases n - f, 0nat, k,
{
    if k > 0 {
        let before = (k - 1) as nat;
        lemma_collected_children(h, p, f, cs, before, n);
        lemma_retreat_children(h, p, f, cs, before, n);
        let (h1, p1) = retreat_children(h, p, f, cs, before, n);
        assert(frame_fits(h, p.arena, f));
        let c = cs[k - 1] as int;
        assert(f < c < n && p.arena[c].parent == Some(f as usize));
        lemma_retreat(h1, p1, c, n);
        let p2 = retreat(h1, p1, c, n).1;
        if exists|j: int| 0 <= j < before && #[trigger] cs[j] == c {
            let j = choose|j: int| 0 <= j < before && #[trigger] cs[j] == c;
            assert(dropped(p.arena, cs, before as int, c));
            assert(p1.arena[c].children is None);
            assert(p1.arena[c].domain.len() == 0);
            assert(p2.arena[c].stats == p1.arena[c].stats);
        } else {
            assert forall|y: int|
                0 <= y < n && (y == c || below(p.arena, y, c)) implies #[trigger] p1.arena[y]
                == p.arena[y] by {
                if dropped(p.arena, cs, before as int, y) {
                    let j = choose|j: int|
                        0 <= j < before && (y == #[trigger] cs[j] || below(
                            p.arena,
                            y,
                            cs[j] as int,
                        ));
                    assert(f < cs[j] < n && p.arena[cs[j] as int].parent == Some(f as usize));
                    lemma_apart(p.arena, f, c, cs[j] as int, y);
                }
            }
            lemma_collected_same(h, p, p1.arena, c, n);
            lemma_collected(h1, p1, c, n);
        }
        assert(p2.arena[c].stats == collected(p.arena, c, n));
        let q = retreat_children(h, p, f, cs, k, n).1;
        assert forall|i: int| #![trigger cs[i]] 0 <= i < k implies ({
            let x = q.arena[cs[i] as int];
            x.domain.len() == 0 && x.stats == collected(p.arena, cs[i] as int, n)
        }) by {
            let d = cs[i] as int;
            assert(f < cs[i] < n && p.arena[d].parent == Some(f as usize));
            if d != c {
                lemma_apart(p.arena, f, d, c, d);
                lemma_below_same(p.arena, p1.arena, d, c);
                assert(p2.arena[d] == p1.arena[d]);
            }
        }
    }
}

/// Taking back the frame `f`: the frame itself and all frames below it are unassigned, and their
/// metavariables are; it gathers what is recorded of itself and of everything below it; the size
/// drops by the number of assigned frames that are taken back; no frame below it is listed any
/// more, but the frame itself is; and the other frames are as they were, listed or not.
pub proof fn law_backtrack(h: Heap, p: ProverView, f: int)
    requires
        in_order(h, p),
        lists_leaves(p),
        0 <= f < p.arena.len(),
        live(p.arena, f),
        p.arena[f].children is Some,
    ensures
        ({
            let (g, q) = retreat(h, p, f, p.arena.len());
            &&& in_order(g, q)
            &&& lists_leaves(q)
            &&& q.arena[f] == FrameView {
                children: None,
                stats: collected(p.arena, f, p.arena.len()),
                ..p.arena[f]
            }
            &&& q.size == p.size - (assigned_count(p.arena, p.arena.len() as int) - assigned_count(
                q.arena,
                p.arena.len() as int,
            ))
            &&& g.metas[p.arena[f].meta() as int].assignment is None
            &&& forall|x: int|
                0 <= x < p.arena.len() && below(p.arena, x, f) ==> (#[trigger] q.arena[x]).children
                    is None
            &&& forall|x: int|
                0 <= x < p.arena.len() && x != f && !below(p.arena, x, f)
                    ==> #[trigger] q.arena[x] == p.arena[x]
            &&& forall|y: usize| #[trigger]
                q.frames.contains(y) <==> y == f || (p.frames.contains(y) && !below(
                    p.arena,
                    y as int,
                    f,
                ))
        }),
{
    let n = p.arena.len();
    lemma_retreat(h, p, f, n);
    lemma_collected(h, p, f, n);
    lemma_retreat_frames(h, p, f, n);
    let (g, q) = retreat(h, p, f, n);
    assert forall|i: int| 0 <= i < q.frames.len() implies live(
        q.arena,
        (#[trigger] q.frames[i]) as int,
    ) && q.arena[q.frames[i] as int].children is None by {
        let y = q.frames[i];
        assert(q.frames.contains(y));
        if y == f {
            assert forall|z: int|
                0 <= z < n && #[trigger] below(p.arena, f, z) implies q.arena[z].children
                == p.arena[z].children by {
                lemma_below_greater(p.arena, f, z);
                lemma_below_greater(p.arena, z, f);
            }
            lemma_live_kept(p.arena, q.arena, f);
        } else {
            let j = choose|j: int| 0 <= j < p.frames.len() && p.frames[j] == y;
            assert(live(p.arena, p.frames[j] as int));
            assert forall|z: int|
                0 <= z < n && #[trigger] below(p.arena, y as int, z) implies q.arena[z].children
                == p.arena[z].children by {
                if below(p.arena, z, f) {
                    lemma_below_trans(p.arena, y as int, z, f);
                }
            }
            lemma_live_kept(p.arena, q.arena, y as int);
            assert(q.arena[y as int] == p.arena[y as int]);
        }
    }
}

/// If the frames that are not listed though they are live and unassigned are all below `f`, then
/// after `f` has been taken back, exactly the frames that are live and unassigned are listed.
pub proof fn law_backtrack_restores(h: Heap, p: ProverView, f: int)
    requires
        in_order(h, p),
        lists_leaves(p),
        0 <= f < p.arena.len(),
        live(p.arena, f),
        p.arena[f].children is Some,
        forall|x: int|
            0 <= x < p.arena.len() && #[trigger] live(p.arena, x) && p.arena[x].children is None
                ==> below(p.arena, x, f) || p.frames.contains(x as usize),
    ensures
        lists_all_leaves(retreat(h, p, f, p.arena.len()).1, None),
{
    let n = p.arena.len();
    law_backtrack(h, p, f);
    lemma_retreat(h, p, f, n);
    let q = retreat(h, p, f, n).1;
    assert forall|x: int|
        0 <= x < n && #[trigger] live(q.arena, x) && q.arena[x].children
            is None implies q.frames.contains(x as usize) by {
        if x != f {
            if below(p.arena, x, f) {
                lemma_below_greater(p.arena, x, f);
                let z = q.arena[x].parent->0 as int;
                assert(q.arena[x].parent == p.arena[x].parent);
                assert(q.arena[z].children is None);
            } else {
                lemma_live_before(p.arena, q.arena, x);
                assert(q.arena[x] == p.arena[x]);
                assert(live(p.arena, x));
            }
        }
    }
}

/// A frame that is live after frames were only unassigned was live before.
proof fn lemma_live_before(a: Seq<FrameView>, b: Seq<FrameView>, x: int)
    requires
        same_tree(a, b),
        0 <= x < a.len(),
        live(b, x),
        forall|z: int|
            0 <= z < a.len() && (#[trigger] b[z]).children is Some ==> b[z].children
                == a[z].children,
    ensures
        live(a, x),
    decreases x,
{
    if x != 0 {
        let q = b[x].parent->0 as int;
        assert(b[x].parent == a[x].parent);
        assert(b[q].children is Some);
        lemma_live_before(a, b, q);
        assert(attached(a, x));
    }
}

proof fn lemma_complete(h: Heap, p: ProverView, x: int, y: MetaId)
    requires
        in_order(h, p),
        lists_all_leaves(p, None),
        p.frames.len() == 0,
        0 <= x < p.arena.len(),
        live(p.arena, x),
        holds(p.arena[x].component, y),
    ensures
        leaves(h, y).len() == 0,
    decreases p.arena.len() - x, 1nat, 0nat,
{
    assert(frame_fits(h, p.arena, x));
    assert(p.arena[x].children is Some) by {
        if p.arena[x].children is None {
            assert(p.frames.contains(x as usize));
        }
    }
    let cs = p.arena[x].children->0;
    let m = p.arena[x].meta();
    if y == m {
        assert forall|k: nat| k <= args_of(h, m).len() implies #[trigger] args_leaves(
            h,
            m,
            k,
        ).len() == 0 by {
            lemma_args_complete(h, p, x, k);
        }
        assert(args_leaves(h, m, args_of(h, m).len()).len() == 0);
    } else {
        assert(covered(p.arena, cs, y));
        let i = choose|i: int|
            0 <= i < cs.len() && holds(p.arena[#[trigger] cs[i] as int].component, y);
        let c = cs[i] as int;
        assert(x < c < p.arena.len() && p.arena[c].parent == Some(x as usize));
        assert(cs.contains(c as usize));
        assert(attached(p.arena, c));
        lemma_complete(h, p, c, y);
    }
}

proof fn lemma_args_complete(h: Heap, p: ProverView, x: int, k: nat)
    requires
        in_order(h, p),
        lists_all_leaves(p, None),
        p.frames.len() == 0,
        0 <= x < p.arena.len(),
        live(p.arena, x),
        p.arena[x].children is Some,
        k <= args_of(h, p.arena[x].meta()).len(),
    ensures
        args_leaves(h, p.arena[x].meta(), k).len() == 0,
    decreases p.arena.len() - x, 0nat, k,
{
    if k > 0 {
        lemma_args_complete(h, p, x, (k - 1) as nat);
        assert(frame_fits(h, p.arena, x));
        let m = p.arena[x].meta();
        let y = args_of(h, m)[k - 1];
        let cs = p.arena[x].children->0;
        assert(args_of(h, m).contains(y));
        assert(covered(p.arena, cs, y));
        let i = choose|i: int|
            0 <= i < cs.len() && holds(p.arena[#[trigger] cs[i] as int].component, y);
        let c = cs[i] as int;
        assert(x < c < p.arena.len() && p.arena[c].parent == Some(x as usize));
        assert(cs.contains(c as usize));
        assert(attached(p.arena, c));
        lemma_complete(h, p, c, y);
    }
}

/// When no frame is left to be assigned, the term is complete: it has no unassigned
/// metavariable.
pub proof fn law_solution_complete(h: Heap, p: ProverView)
    requires
        in_order(h, p),
        lists_all_leaves(p, None),
        p.frames.len() == 0,
    ensures
        leaves(h, p.meta).len() == 0,
{
    lemma_complete(h, p, 0, p.meta);
}

impl Prover {
    /// Takes back the frame `parent`: everything below it is unassigned and dropped, and the
    /// frame is unassigned, gathers what was recorded of everything below it, and is put back
    /// among the frames.
    pub fn backtrack(&mut self, store: &mut Store, parent: usize)
        requires
            in_order(old(store)@, old(self)@),
            parent < old(self)@.arena.len(),
        ensures
            (final(store)@, final(self)@) == retreat(
                old(store)@,
                old(self)@,
                parent as int,
                old(self)@.arena.len(),
            ),
            in_order(final(store)@, final(self)@),
            final(self)@.arena.len() == old(self)@.arena.len(),
        decreases old(self)@.arena.len() - parent,
    {
        let ghost h = store@;
        let ghost p = self@;
        let ghost n = p.arena.len();
        proof {
            lemma_retreat(h, p, parent as int, n);
        }
        let children: Vec<usize> = match &self.arena[parent].children {
            None => {
                if self.arena[parent].domain.len() > 0 {
                    self.arena[parent].stats.unknown = true;
                }
                assert(self@.arena =~= p.arena.update(
                    parent as int,
                    noted(p.arena[parent as int]),
                ));
                return ;
            },
            Some(v) => crate::meta::copy_ids(v),
        };
        let ghost cs = children@;
        let mut i: usize = 0;
        while i < children.len()
            invariant
                i <= cs.len(),
                cs == children@,
                h == old(store)@,
                p == old(self)@,
                in_order(h, p),
                n == p.arena.len(),
                parent < n,
                p.arena[parent as int].children == Some(cs),
                (store@, self@) == retreat_children(h, p, parent as int, cs, i as nat, n),
                in_order(store@, self@),
                self@.arena.len() == n,
            decreases cs.len() - i,
        {
            let child: usize = children[i];
            proof {
                assert(frame_fits(h, p.arena, parent as int));
                assert(parent < cs[i as int] < n);
                lemma_retreat_children(h, p, parent as int, cs, (i + 1) as nat, n);
                lemma_retreat(store@, self@, child as int, n);
            }
            self.backtrack(store, child);
            let ghost p2 = self@;
            self.drop_frame(child);
            i = i + 1;
        }
        proof {
            lemma_retreat_children(h, p, parent as int, cs, cs.len(), n);
            assert(frame_fits(store@, self@.arena, parent as int));
            assert(!dropped(p.arena, cs, cs.len() as int, parent as int)) by {
                if dropped(p.arena, cs, cs.len() as int, parent as int) {
                    assert(frame_fits(h, p.arena, parent as int));
                    lemma_dropped_below(
                        p.arena,
                        parent as int,
                        cs,
                        cs.len() as int,
                        parent as int,
                    );
                }
            }
            assert(self@.arena[parent as int] == p.arena[parent as int]);
            lemma_count_positive(self@.arena, parent as int, n as int);
        }
        let ghost p1 = self@;
        let m: MetaId = self.arena[parent].component.next.meta;
        Meta::unassign(store, m);
        let mut stats: SearchInfo = self.arena[parent].stats;
        let mut j: usize = 0;
        while j < children.len()
            invariant
                j <= cs.len(),
                cs == children@,
                self@.arena == p1.arena,
                n == p1.arena.len(),
                parent < n,
                forall|i: int| 0 <= i < cs.len() ==> (#[trigger] cs[i]) < n,
                stats == gathered(p1.arena[parent as int].stats, p1.arena, cs, j as nat),
            decreases cs.len() - j,
        {
            stats.add(&self.arena[children[j]].stats);
            assert(p1.arena[cs[j as int] as int] == self.arena@[cs[j as int] as int]@);
            j = j + 1;
        }
        self.arena[parent].children = None;
        self.arena[parent].stats = stats;
        self.frames.push(parent);
        self.size = self.size - 1;
        proof {
            assert(self@.arena =~= p1.arena.update(
                parent as int,
                FrameView { children: None, stats, ..p1.arena[parent as int] },
            ));
        }
    }

    /// Drops a frame that has been taken back.
    fn drop_frame(&mut self, child: usize)
        requires
            child < old(self)@.arena.len(),
        ensures
            final(self)@ == (ProverView {
                arena: old(self)@.arena.update(
                    child as int,
                    FrameView { domain: Seq::empty(), ..old(self)@.arena[child as int] },
                ),
                frames: without(old(self)@.frames, child),
                ..old(self)@
            }),
    {
        let ghost p = self@;
        self.arena[child].domain = Vec::new();
        assert(self@.arena[child as int].domain =~= Seq::empty());
        assert(self@.arena =~= p.arena.update(
            child as int,
            FrameView { domain: Seq::empty(), ..p.arena[child as int] },
        ));
        self.unlist(child);
    }

    /// Takes the frame off the list.
    pub(crate) fn unlist(&mut self, child: usize)
        ensures
            final(self)@ == (ProverView {
                frames: without(old(self)@.frames, child),
                ..old(self)@
            }),
    {
        let mut k: usize = 0;
        while k < self.frames.len() && self.frames[k] != child
            invariant
                k <= self.frames@.len(),
                position(self.frames@, child, 0) == position(self.frames@, child, k as int),
            decreases self.frames@.len() - k,
        {
            k = k + 1;
        }
        if k < self.frames.len() {
            self.frames.swap_remove(k);
        }
    }
}

/// The frames that are not live any more, among the first `k`, without those that were not live
/// before, each with whether candidates were left when it was taken back.
pub open spec fn dropped_since(was_live: Seq<bool>, arena: Seq<FrameView>, k: nat) -> Seq<
    (usize, bool),
>
    decreases k,
{
    if k == 0 {
        Seq::empty()
    } else {
        let rest = dropped_since(was_live, arena, (k - 1) as nat);
        let x = k - 1;
        if (x >= was_live.len() || was_live[x]) && !live(arena, x) {
            rest.push((x as usize, arena[x].stats.unknown))
        } else {
            rest
        }
    }
}

impl Prover {
    /// Which of the frames hang together with the root.
    pub fn live_frames(&self) -> (r: Vec<bool>)
        ensures
            r@.len() == self@.arena.len(),
            forall|x: int| 0 <= x < r@.len() ==> #[trigger] r@[x] == live(self@.arena, x),
    {
        let ghost arena = self@.arena;
        let mut found: Vec<bool> = Vec::new();
        let mut x: usize = 0;
        while x < self.arena.len()
            invariant
                x <= self.arena@.len(),
                arena == self@.arena,
                found@.len() == x,
                forall|y: int| 0 <= y < x ==> #[trigger] found@[y] == live(arena, y),
            decreases self.arena@.len() - x,
        {
            let mut here = x == 0;
            if !here {
                match self.arena[x].parent {
                    None => {},
                    Some(up) => if up < x && found[up] {
                        match &self.arena[up].children {
                            None => {},
                            Some(cs) => {
                                let mut i: usize = 0;
                                while i < cs.len() && cs[i] != x
                                    invariant
                                        i <= cs@.len(),
                                        forall|j: int| 0 <= j < i ==> #[trigger] cs@[j] != x,
                                    decreases cs@.len() - i,
                                {
                                    i = i + 1;
                                }
                                here = i < cs.len();
                                assert(here == cs@.contains(x));
                                assert(arena[up as int].children == Some(cs@));
                            },
                        }
                    },
                }
            }
            assert(here == live(arena, x as int)) by {
                assert(arena[x as int] == self.arena@[x as int]@);
                if let Some(up) = arena[x as int].parent {
                    if up < x {
                        assert(arena[up as int] == self.arena@[up as int]@);
                        assert(found@[up as int] == live(arena, up as int));
                    }
                }
            }
            found.push(here);
            x = x + 1;
        }
        found
    }

    /// The frames that have been dropped since `was_live` told which of the frames are live, those
    /// that were added in between too, each with whether candidates were left when it was taken
    /// back.
    pub fn dropped_frames(&self, was_live: &Vec<bool>) -> (r: Vec<(usize, bool)>)
        ensures
            r@ == dropped_since(was_live@, self@.arena, self@.arena.len()),
    {
        let now = self.live_frames();
        let mut out: Vec<(usize, bool)> = Vec::new();
        let mut x: usize = 0;
        while x < self.arena.len()
            invariant
                x <= self@.arena.len(),
                now@.len() == self@.arena.len(),
                forall|y: int| 0 <= y < now@.len() ==> #[trigger] now@[y] == live(self@.arena, y),
                out@ == dropped_since(was_live@, self@.arena, x as nat),
            decreases self@.arena.len() - x,
        {
            assert(now@[x as int] == live(self@.arena, x as int));
            if (x >= was_live.len() || was_live[x]) && !now[x] {
                out.push((x, self.arena[x].stats.unknown));
            }
            x = x + 1;
        }
        out
    }
}

} // verus!
