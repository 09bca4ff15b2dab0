//! The frames of the search: which metavariable is refined where, what may still be tried, and
//! how a frame is taken back.
use crate::data::{MetaId, MetaView};
use crate::es::{depths, variables};
use crate::ids::{Fault, Ids};
use crate::independence::{Component, ComponentView};
use crate::memory::{Heap, Store};
use crate::meta::{all_present, present};
use crate::stats::SearchInfo;
use crate::search::{arity, attempt, law_test_frame, Candidate, CandidateView};
use vstd::prelude::*;

verus! {

/// A node of the search: a component, and the assignments to its next metavariable that are yet
/// to be tried.
pub struct Frame {
    /// The candidates, the next one to try at the end.
    pub domain: Vec<Candidate>,
    pub component: Component,
    pub parent: Option<usize>,
    /// The frames below this one. This is `None` if the current frame is unassigned.
    pub children: Option<Vec<usize>>,
    /// What has been recorded of the metavariable, and of the frames below that were taken back.
    pub stats: SearchInfo,
}

/// The view of a `Frame`.
#[verifier::ext_equal]
pub struct FrameView {
    pub domain: Seq<CandidateView>,
    pub component: ComponentView,
    pub parent: Option<usize>,
    pub children: Option<Seq<usize>>,
    pub stats: SearchInfo,
}

/// The views of candidates.
pub open spec fn candidate_views(v: Seq<Candidate>) -> Seq<CandidateView> {
    v.map_values(|c: Candidate| c.view())
}

/// The children of a frame, if it has been assigned.
pub open spec fn children_view(children: Option<Vec<usize>>) -> Option<Seq<usize>> {
    match children {
        None => None,
        Some(v) => Some(v@),
    }
}

impl Frame {
    pub open spec fn view(&self) -> FrameView {
        FrameView {
            domain: candidate_views(self.domain@),
            component: self.component@,
            parent: self.parent,
            children: children_view(self.children),
            stats: self.stats,
        }
    }

    /// A frame with nothing to try.
    pub fn new(component: Component, parent: Option<usize>) -> (r: Frame)
        ensures
            r@ == (FrameView {
                domain: Seq::empty(),
                component: component@,
                parent,
                children: None,
                stats: SearchInfo::none(),
            }),
    {
        let r = Frame {
            domain: Vec::new(),
            component,
            parent,
            children: None,
            stats: SearchInfo::new(),
        };
        assert(r@.domain =~= Seq::empty());
        r
    }
}

impl FrameView {
    /// The metavariable that the frame refines.
    pub open spec fn meta(self) -> MetaId {
        self.component.next.meta
    }
}

/// The views of frames.
pub open spec fn frame_views(v: Seq<Frame>) -> Seq<FrameView> {
    v.map_values(|f: Frame| f.view())
}

/// The possible assignments to `m` among its first `k` variables, in order, the heap with their
/// arguments, and the next identifier.
pub open spec fn tried(h: Heap, m: MetaId, k: int, fuel: nat, next: u64) -> Result<
    (Seq<CandidateView>, Heap, u64),
    Fault,
>
    decreases k,
{
    let es = h.metas[m as int].gamma;
    if k <= 0 {
        Ok((Seq::empty(), h, next))
    } else {
        match tried(h, m, k - 1, fuel, next) {
            Err(f) => Err(f),
            Ok((s, g, n)) => match attempt(
                g,
                variables(es)[k - 1].0,
                es[depths(es)[k - 1]],
                m,
                fuel,
                n,
            ) {
                Err(f) => Err(f),
                Ok((o, g2, n2)) => Ok(
                    (
                        match o {
                            Some(Some(c)) => s.push(c),
                            _ => s,
                        },
                        g2,
                        n2,
                    ),
                ),
            },
        }
    }
}

/// `h` with the record of whether `m` had a rigid equation when it was chosen.
pub open spec fn with_rigid(h: Heap, m: MetaId, flag: bool) -> Heap {
    h.with_meta(m, MetaView { had_rigid_equation: flag, ..h.metas[m as int] })
}

/// The frame with every possible assignment to try, the first variable at the end.
pub open spec fn populated(h: Heap, f: FrameView, fuel: nat, next: u64) -> Result<
    (FrameView, Heap, u64),
    Fault,
> {
    let m = f.meta();
    let h1 = with_rigid(h, m, f.component.next.has_rigid_equation);
    match tried(h1, m, variables(h1.metas[m as int].gamma).len() as int, fuel, next) {
        Err(e) => Err(e),
        Ok((s, g, n)) => Ok((FrameView { domain: s.reverse(), ..f }, g, n)),
    }
}

/// Whether `c` can be assigned to `m`.
pub open spec fn candidate_fits(h: Heap, m: MetaId, c: CandidateView) -> bool {
    &&& present(h, c.assignment.changes)
    &&& c.constraints.len() == c.assignment.changes.len()
    &&& forall|i: int|
        0 <= i < c.assignment.args.len() ==> m < (#[trigger] c.assignment.args[i]) < h.metas.len()
}

/// Whether the references within the heap lead somewhere.
pub open spec fn sane(h: Heap) -> bool {
    &&& all_present(h)
    &&& h.ordered()
}

/// Whether `g` is `h` with further unassigned metavariables, and perhaps `m` unassigned.
pub open spec fn grown(h: Heap, g: Heap, m: MetaId) -> bool {
    &&& g.metas.len() >= h.metas.len()
    &&& g.binds == h.binds
    &&& forall|x: int|
        0 <= x < h.metas.len() && x != m ==> #[trigger] g.metas[x] == h.metas[x]
    &&& m < h.metas.len() ==> g.metas[m as int] == h.metas[m as int] || g.metas[m as int] == (
    MetaView { assignment: None, ..h.metas[m as int] })
    &&& forall|x: int|
        h.metas.len() <= x < g.metas.len() ==> (#[trigger] g.metas[x]).assignment is None
}

pub proof fn lemma_grown_sane(h: Heap, g: Heap, m: MetaId)
    requires
        sane(h),
        grown(h, g, m),
        m < h.metas.len(),
    ensures
        sane(g),
{
    assert forall|x: int|
        0 <= x < g.metas.len() && (#[trigger] g.metas[x]).assignment is Some implies present(
        g,
        g.metas[x].assignment->0.changes,
    ) by {
        assert(g.metas[x].assignment == h.metas[x].assignment);
        assert(present(h, h.metas[x].assignment->0.changes));
    }
    assert forall|x: int, i: int|
        #![trigger g.metas[x].assignment->0.args[i]]
        0 <= x < g.metas.len() && g.metas[x].assignment is Some && 0 <= i
            < g.metas[x].assignment->0.args.len() implies x < g.metas[x].assignment->0.args[i]
        < g.metas.len() by {
        assert(g.metas[x].assignment == h.metas[x].assignment);
        assert(x < h.metas[x].assignment->0.args[i]);
    }
}

proof fn lemma_grown_trans(a: Heap, b: Heap, c: Heap, m: MetaId)
    requires
        grown(a, b, m),
        grown(b, c, m),
        m < a.metas.len(),
    ensures
        grown(a, c, m),
{
    assert forall|x: int| a.metas.len() <= x < c.metas.len() implies (
    #[trigger] c.metas[x]).assignment is None by {
        if x < b.metas.len() {
            assert(b.metas[x].assignment is None);
            assert(c.metas[x] == b.metas[x]);
        }
    }
    assert forall|x: int| 0 <= x < a.metas.len() && x != m implies #[trigger] c.metas[x]
        == a.metas[x] by {
        assert(b.metas[x] == a.metas[x]);
    }
}

pub proof fn lemma_attempt_grown(
    h: Heap,
    head: crate::index::DeBruijnIndex,
    node: crate::data::NodeView,
    m: MetaId,
    fuel: nat,
    next: u64,
)
    requires
        m < h.metas.len(),
        h.metas.len() + arity(node, head.1) <= usize::MAX,
    ensures
        attempt(h, head, node, m, fuel, next) matches Ok((o, g, _)) ==> {
            &&& grown(h, g, m)
            &&& o matches Some(Some(c)) ==> candidate_fits(g, m, c)
        },
{
    law_test_frame(h, head, node, m, fuel, next);
    if let Ok((o, g, _)) = attempt(h, head, node, m, fuel, next) {
        let n = h.metas.len();
        if o is Some {
            assert forall|x: int| 0 <= x < n implies #[trigger] g.metas[x] == h.with_assignment(
                m,
                None,
            ).metas[x] by {
                assert(g.metas.take(n as int)[x] == g.metas[x]);
            }
        }
        if let Some(Some(c)) = o {
            assert forall|k: int| 0 <= k < c.assignment.changes.len() implies (
            #[trigger] c.assignment.changes[k]) < g.metas.len() by {
                assert(crate::normal::open_meta(g, c.assignment.changes[k]));
            }
            assert forall|i: int| 0 <= i < c.assignment.args.len() implies m < (
            #[trigger] c.assignment.args[i]) < g.metas.len() by {
                assert(c.assignment.args[i] == n + i);
            }
        }
    }
}

pub proof fn lemma_candidate_grown(a: Heap, b: Heap, m: MetaId, c: CandidateView)
    requires
        candidate_fits(a, m, c),
        a.metas.len() <= b.metas.len(),
    ensures
        candidate_fits(b, m, c),
{
    assert forall|k: int| 0 <= k < c.assignment.changes.len() implies (
    #[trigger] c.assignment.changes[k]) < b.metas.len() by {
        assert(c.assignment.changes[k] < a.metas.len());
    }
    assert forall|i: int| 0 <= i < c.assignment.args.len() implies m < (
    #[trigger] c.assignment.args[i]) < b.metas.len() by {
        assert(c.assignment.args[i] < a.metas.len());
    }
}

proof fn lemma_tried_fails(h: Heap, m: MetaId, k: int, n: int, fuel: nat, next: u64)
    requires
        0 <= k <= n,
        tried(h, m, k, fuel, next) is Err,
    ensures
        tried(h, m, n, fuel, next) == tried(h, m, k, fuel, next),
    decreases n - k,
{
    if k < n {
        lemma_tried_fails(h, m, k, n - 1, fuel, next);
    }
}

/// The candidates in the opposite order.
fn reversed(v: Vec<Candidate>) -> (r: Vec<Candidate>)
    ensures
        candidate_views(r@) == candidate_views(v@).reverse(),
{
    let mut rest = v;
    let mut r: Vec<Candidate> = Vec::new();
    let ghost given = rest@;
    while rest.len() > 0
        invariant
            rest@.len() <= given.len(),
            rest@ == given.take(rest@.len() as int),
            r@ == given.skip(rest@.len() as int).reverse(),
        decreases rest@.len(),
    {
        let ghost n = rest@.len() as int;
        match rest.pop() {
            None => {},
            Some(c) => {
                r.push(c);
                assert(given.take(n).drop_last() =~= given.take(n - 1));
                assert(given.skip(n - 1).reverse() =~= given.skip(n).reverse().push(given[n - 1]));
            },
        }
    }
    assert(given.skip(0) =~= given);
    assert(candidate_views(r@) =~= candidate_views(given).reverse());
    r
}

/// Every possible assignment of `m`, in the order of the variables.
pub fn candidates(store: &mut Store, m: MetaId, fuel: usize, ids: &mut Ids) -> (r: Result<
    Vec<Candidate>,
    Fault,
>)
    requires
        m < old(store)@.metas.len(),
    ensures
        tried(
            old(store)@,
            m,
            variables(old(store)@.metas[m as int].gamma).len() as int,
            fuel as nat,
            old(ids).next,
        ) == match r {
            Ok(v) => Ok::<(Seq<CandidateView>, Heap, u64), Fault>(
                (candidate_views(v@), final(store)@, final(ids).next),
            ),
            Err(f) => Err(f),
        },
        grown(old(store)@, final(store)@, m),
        r matches Ok(v) ==> forall|k: int|
            0 <= k < v@.len() ==> candidate_fits(
                final(store)@,
                m,
                #[trigger] candidate_views(v@)[k],
            ),
{
    let ghost h = store@;
    let ghost es = h.metas[m as int].gamma;
    let gamma = store.meta(m).gamma.clone();
    let items = gamma.iter();
    let ghost proj = |x: (
        crate::index::DeBruijnIndex,
        std::rc::Rc<crate::data::Linked>,
        crate::data::Var,
    )| (x.0, x.2);
    assert(items@.map_values(proj) == variables(es));
    let mut domain: Vec<Candidate> = Vec::new();
    assert(candidate_views(domain@) =~= Seq::empty());
    let mut k: usize = 0;
    while k < items.len()
        invariant
            k <= items@.len(),
            m < h.metas.len(),
            m < store@.metas.len(),
            h == old(store)@,
            es == h.metas[m as int].gamma,
            proj == (|x: (
                crate::index::DeBruijnIndex,
                std::rc::Rc<crate::data::Linked>,
                crate::data::Var,
            )| (x.0, x.2)),
            items@.map_values(proj) == variables(es),
            items@.len() == depths(es).len(),
            forall|j: int|
                0 <= j < items@.len() ==> crate::es::starts_at(
                    es,
                    (#[trigger] items@[j]).1,
                    depths(es)[j],
                ),
            tried(h, m, k as int, fuel as nat, old(ids).next) == Ok::<
                (Seq<CandidateView>, Heap, u64),
                Fault,
            >((candidate_views(domain@), store@, ids.next)),
            grown(h, store@, m),
            forall|j: int|
                0 <= j < domain@.len() ==> candidate_fits(
                    store@,
                    m,
                    #[trigger] candidate_views(domain@)[j],
                ),
        decreases items@.len() - k,
    {
        let ghost before = store@;
        let ghost views = candidate_views(domain@);
        let ghost next = ids.next;
        let head = items[k].0;
        proof {
            assert(variables(es)[k as int] == proj(items@[k as int]));
            assert(crate::es::starts_at(es, items@[k as int].1, depths(es)[k as int]));
            assert(crate::data::nodes(Some(items@[k as int].1))[0] == items@[k as int].1.node@);
        }
        let attempted = crate::search::test(store, head, &items[k].1, m, fuel, ids);
        match attempted {
            Err(f) => {
                proof {
                    lemma_tried_fails(
                        h,
                        m,
                        k + 1,
                        items@.len() as int,
                        fuel as nat,
                        old(ids).next,
                    );
                    assert(items@.len() == variables(es).len());
                    assert(grown(before, store@, m));
                    lemma_grown_trans(h, before, store@, m);
                }
                return Err(f);
            },
            Ok(o) => {
                proof {
                    lemma_attempt_grown(
                        before,
                        head,
                        items@[k as int].1.node@,
                        m,
                        fuel as nat,
                        next,
                    );
                    lemma_grown_trans(h, before, store@, m);
                    assert forall|j: int| 0 <= j < views.len() implies candidate_fits(
                        store@,
                        m,
                        #[trigger] views[j],
                    ) by {
                        lemma_candidate_grown(before, store@, m, views[j]);
                    }
                }
                if let Some(Some(c)) = o {
                    domain.push(c);
                    assert(candidate_views(domain@) =~= views.push(c@));
                }
            },
        }
        k = k + 1;
    }
    proof {
        assert(items@.len() == variables(es).len());
    }
    Ok(domain)
}

impl Frame {
    /// Tries every variable in the context of the metavariable of this frame.
    pub fn populate(&mut self, store: &mut Store, fuel: usize, ids: &mut Ids) -> (r: Result<
        (),
        Fault,
    >)
        requires
            old(self)@.meta() < old(store)@.metas.len(),
        ensures
            populated(old(store)@, old(self)@, fuel as nat, old(ids).next) == match r {
                Ok(()) => Ok::<(FrameView, Heap, u64), Fault>(
                    (final(self)@, final(store)@, final(ids).next),
                ),
                Err(f) => Err(f),
            },
            r is Err ==> final(self)@ == old(self)@,
            grown(
                with_rigid(
                    old(store)@,
                    old(self)@.meta(),
                    old(self)@.component.next.has_rigid_equation,
                ),
                final(store)@,
                old(self)@.meta(),
            ),
            r is Ok ==> forall|k: int|
                0 <= k < final(self)@.domain.len() ==> candidate_fits(
                    final(store)@,
                    final(self)@.meta(),
                    #[trigger] final(self)@.domain[k],
                ),
    {
        let m: MetaId = self.component.next.meta;
        store.set_had_rigid_equation(m, self.component.next.has_rigid_equation);
        let domain: Vec<Candidate> = match candidates(store, m, fuel, ids) {
            Err(f) => {
                return Err(f);
            },
            Ok(v) => v,
        };
        let ghost views = candidate_views(domain@);
        self.domain = reversed(domain);
        assert(self@ == (FrameView { domain: views.reverse(), ..old(self)@ }));
        Ok(())
    }
}

} // verus!
