//! Taking assignments back in the opposite order leaves no trace of them.
use crate::backtrack::released;
use crate::data::{ConstraintView, MetaId, MetaView};
use crate::frames::candidate_fits;
use crate::memory::Heap;
use crate::meta::{imposed, lemma_imposed_shape, present, shorter};
use crate::normal::open_meta;
use crate::propagation::law_unassign_undoes_assign;
use crate::prover::with_candidate;
use crate::search::CandidateView;
use vstd::prelude::*;

verus! {

/// A step of a search: metavariables are added, and one is assigned.
pub struct Step {
    pub added: Seq<MetaView>,
    pub meta: MetaId,
    pub candidate: CandidateView,
}

/// The heap with further metavariables.
pub open spec fn with_more(h: Heap, added: Seq<MetaView>) -> Heap {
    Heap { metas: h.metas + added, ..h }
}

/// The heap after the steps from the `k`th on.
pub open spec fn stepped(h: Heap, steps: Seq<Step>, k: int) -> Heap
    decreases steps.len() - k,
{
    if 0 <= k < steps.len() {
        stepped(taken_step(h, steps[k]), steps, k + 1)
    } else {
        h
    }
}

/// The heap after a step.
pub open spec fn taken_step(h: Heap, s: Step) -> Heap {
    with_candidate(with_more(h, s.added), s.meta, s.candidate)
}

/// Whether the steps from the `k`th on can be taken: each assigns a metavariable that is
/// unassigned then.
pub open spec fn can_step(h: Heap, steps: Seq<Step>, k: int) -> bool
    decreases steps.len() - k,
{
    0 <= k < steps.len() ==> {
        let g = with_more(h, steps[k].added);
        &&& open_meta(g, steps[k].meta)
        &&& candidate_fits(g, steps[k].meta, steps[k].candidate)
        &&& can_step(taken_step(h, steps[k]), steps, k + 1)
    }
}

/// The heap after the assignments of the steps from the `k`th on have been taken back, the last
/// one first.
pub open spec fn stepped_back(h: Heap, steps: Seq<Step>, k: int) -> Heap
    decreases steps.len() - k,
{
    if 0 <= k < steps.len() {
        released(stepped_back(h, steps, k + 1), steps[k].meta)
    } else {
        h
    }
}

/// The metavariables that the steps from the `k`th on add.
pub open spec fn all_added(steps: Seq<Step>, k: int) -> Seq<MetaView>
    decreases steps.len() - k,
{
    if 0 <= k < steps.len() {
        steps[k].added + all_added(steps, k + 1)
    } else {
        Seq::empty()
    }
}

proof fn lemma_imposed_more(
    h: Heap,
    changes: Seq<MetaId>,
    constraints: Seq<ConstraintView>,
    n: nat,
    added: Seq<MetaView>,
)
    requires
        present(h, changes),
        n <= changes.len(),
    ensures
        imposed(with_more(h, added), changes, constraints, n) == with_more(
            imposed(h, changes, constraints, n),
            added,
        ),
    decreases n,
{
    if n > 0 {
        lemma_imposed_more(h, changes, constraints, (n - 1) as nat, added);
        lemma_imposed_shape(h, changes, constraints, (n - 1) as nat);
        let g = imposed(h, changes, constraints, (n - 1) as nat);
        let m = changes[n - 1];
        assert(m < h.metas.len());
        let cs = g.metas[m as int].constraints.push(constraints[n - 1]);
        assert(with_more(g, added).with_constraints(m, cs).metas =~= with_more(
            g.with_constraints(m, cs),
            added,
        ).metas);
    }
}

proof fn lemma_candidate_more(h: Heap, m: MetaId, c: CandidateView, added: Seq<MetaView>)
    requires
        m < h.metas.len(),
        candidate_fits(h, m, c),
    ensures
        with_candidate(with_more(h, added), m, c) == with_more(with_candidate(h, m, c), added),
{
    let n = shorter(c.assignment.changes.len(), c.constraints.len());
    lemma_imposed_more(h, c.assignment.changes, c.constraints, n, added);
    lemma_imposed_shape(h, c.assignment.changes, c.constraints, n);
    let g = imposed(h, c.assignment.changes, c.constraints, n);
    assert(with_more(g, added).with_assignment(m, Some(c.assignment)).metas =~= with_more(
        g.with_assignment(m, Some(c.assignment)),
        added,
    ).metas);
}

/// Steps whose assignments are taken back in the opposite order leave nothing behind but the
/// metavariables that they added, as these were: every metavariable that there was before has its
/// former assignment and its former constraints.
pub proof fn law_steps_undone(h: Heap, steps: Seq<Step>, k: int)
    requires
        0 <= k <= steps.len(),
        can_step(h, steps, k),
    ensures
        stepped_back(stepped(h, steps, k), steps, k) == with_more(h, all_added(steps, k)),
    decreases steps.len() - k,
{
    if k < steps.len() {
        let s = steps[k];
        let g = with_more(h, s.added);
        let h1 = taken_step(h, s);
        law_steps_undone(h1, steps, k + 1);
        let rest = all_added(steps, k + 1);
        lemma_candidate_more(g, s.meta, s.candidate, rest);
        let all = with_more(g, rest);
        assert(stepped_back(stepped(h1, steps, k + 1), steps, k + 1) == with_candidate(
            all,
            s.meta,
            s.candidate,
        ));
        assert(open_meta(all, s.meta)) by {
            assert(all.metas[s.meta as int] == g.metas[s.meta as int]);
        }
        assert(present(all, s.candidate.assignment.changes)) by {
            assert forall|i: int| 0 <= i < s.candidate.assignment.changes.len() implies (
            #[trigger] s.candidate.assignment.changes[i]) < all.metas.len() by {
                assert(s.candidate.assignment.changes[i] < g.metas.len());
            }
        }
        lemma_imposed_shape(
            all,
            s.candidate.assignment.changes,
            s.candidate.constraints,
            s.candidate.assignment.changes.len(),
        );
        law_unassign_undoes_assign(
            all,
            s.meta,
            s.candidate.assignment,
            s.candidate.constraints,
        );
        assert(all.metas =~= with_more(h, all_added(steps, k)).metas);
    } else {
        assert(with_more(h, all_added(steps, k)).metas =~= h.metas);
    }
}

} // verus!
