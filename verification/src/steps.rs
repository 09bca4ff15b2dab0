//! What a search assigns is tested first, and the tests vouch for the solution.
use crate::constraint::{fresh, Progress};
use crate::data::{ConstraintView, MetaId, MetaView, NodeView, SubstView, TypeView};
use crate::es::{subst_entry, variables};
use crate::frames::{candidate_fits, lemma_attempt_grown, lemma_grown_sane, sane};
use crate::fresh::{
    drawn_heap, drawn_meta, law_all_drawn, law_whnf_drawn, lemma_drawn_at,
    lemma_heap_drawn_later, lemma_type_args_drawn, lemma_type_at_drawn,
};
use crate::ids::{Fault, STRIDE};
use crate::independence::leaves;
use crate::index::{DeBruijnIndex, Index};
use crate::memory::Heap;
use crate::meta::{imposed, obligations, present, reduce_all};
use crate::normal::{law_whnf_normal, open_meta};
use crate::propagation::{law_all_progress, lemma_imposed, progresses};
use crate::prover::{lemma_with_candidate, with_candidate};
use crate::refine::{all_open, forced, lemma_leaves_open, options};
use crate::search::{
    applicable, applied_type, arity, attempt, law_test_frame, links_at, part_at, proposed,
    type_args, typed_entry, with_args, CandidateView,
};
use crate::session::{lemma_forced_member, played};
use crate::settled::{
    all_drawn, apart, drawn, drawn_constraint, drawn_node, forms_kept, grows, in_place, keeps_forms,
    law_forms_kept, law_steps_settled, lemma_drawn_later, lemma_es_drawn_later, made, nothing_open,
    recorded, settled, tested, without_rules, Step, Trial,
};
use crate::term::{whnf, Effects};
use crate::types::{codomain, has_type, positions, type_at};
use vstd::prelude::*;

verus! {

/// The test of the variable `head`, found in `node`, as the head of `m`.
pub open spec fn trial_of(
    h: Heap,
    head: DeBruijnIndex,
    node: NodeView,
    m: MetaId,
    fuel: nat,
    next: u64,
) -> Trial {
    let ctx = node.entry.context->0;
    let h1 = with_args(h, ctx, head.1, m);
    let var_type = applied_type(h, ctx, head.1, m, next);
    let (w, e) = whnf(
        h1,
        codomain(var_type),
        true,
        false,
        fuel,
        fresh((next + 2 * STRIDE) as u64),
    )->Ok_0;
    Trial {
        heap: h1.with_assignment(m, Some(proposed(h, head, var_type, w.head is Var))),
        effects: Effects {
            next: e.next,
            links: links_at(h, ctx, head.1),
            noted: Seq::empty(),
        },
        fuel,
    }
}

proof fn lemma_grows_trans(a: Heap, b: Heap, c: Heap)
    requires
        grows(a, b),
        grows(b, c),
    ensures
        grows(a, c),
{
    assert forall|x: int| #![trigger c.metas[x]] 0 <= x < a.metas.len() implies c.metas[x].bindings
        == a.metas[x].bindings && c.metas[x].parent == a.metas[x].parent && (
    a.metas[x].assignment matches Some(s) ==> (c.metas[x].assignment matches Some(t) && t.head
        == s.head && t.args == s.args && t.bind == s.bind)) by {
        assert(b.metas[x].bindings == a.metas[x].bindings);
    }
}

/// Giving arguments their types changes nothing but their types and contexts.
pub proof fn lemma_type_args_keep(
    h: Heap,
    var_type: TypeView,
    gamma: Seq<NodeView>,
    args: Seq<MetaId>,
    i: nat,
    next: u64,
)
    requires
        forall|k: int| 0 <= k < args.len() ==> (#[trigger] args[k]) < h.metas.len(),
    ensures
        type_args(h, var_type, gamma, args, i, next) matches Ok((g, _)) ==> {
            &&& g.metas.len() == h.metas.len()
            &&& g.binds == h.binds
            &&& forall|x: int|
                0 <= x < h.metas.len() ==> (#[trigger] g.metas[x]) == (MetaView {
                    gamma: g.metas[x].gamma,
                    typ: g.metas[x].typ,
                    ..h.metas[x]
                })
        },
    decreases args.len() - i,
{
    let index = Index::Param(i as usize);
    if i < args.len() && has_type(h, var_type, index) && next + 2 * STRIDE <= u64::MAX {
        let m = h.metas[args[i as int] as int];
        let entry = crate::es::vars_entry(next, (next + STRIDE) as u64);
        let typ = type_at(h, var_type, index, entry);
        let node = NodeView { entry: typed_entry(next, typ), bindings: m.bindings };
        let meta = MetaView { gamma: crate::es::appended(gamma, node), typ: Some(typ), ..m };
        let h2 = h.with_meta(args[i as int], meta);
        lemma_type_args_keep(h2, var_type, gamma, args, i + 1, (next + 2 * STRIDE) as u64);
        if let Ok((g, _)) = type_args(h, var_type, gamma, args, i, next) {
            assert forall|x: int| 0 <= x < h.metas.len() implies (#[trigger] g.metas[x]) == (
            MetaView { gamma: g.metas[x].gamma, typ: g.metas[x].typ, ..h.metas[x] }) by {
                assert(g.metas[x] == (MetaView {
                    gamma: g.metas[x].gamma,
                    typ: g.metas[x].typ,
                    ..h2.metas[x]
                }));
            }
        }
    }
}

/// What is imposed is in place, and touches nothing else.
proof fn lemma_imposed_in_place(
    h: Heap,
    changes: Seq<MetaId>,
    constraints: Seq<ConstraintView>,
    n: nat,
)
    requires
        present(h, changes),
        n <= changes.len(),
    ensures
        forall|k: int|
            #![trigger changes[k]]
            0 <= k < n ==> imposed(
                h,
                changes,
                constraints,
                n,
            ).metas[changes[k] as int].constraints.contains(constraints[k]),
        forall|x: int|
            0 <= x < h.metas.len() && (forall|k: int| 0 <= k < n ==> changes[k] != x)
                ==> #[trigger] imposed(h, changes, constraints, n).metas[x] == h.metas[x],
    decreases n,
{
    if n > 0 {
        let before = imposed(h, changes, constraints, (n - 1) as nat);
        let after = imposed(h, changes, constraints, n);
        lemma_imposed_in_place(h, changes, constraints, (n - 1) as nat);
        lemma_imposed(h, changes, constraints, (n - 1) as nat);
        let last = changes[n - 1] as int;
        assert(last < h.metas.len());
        let list = before.metas[last].constraints;
        let longer = list.push(constraints[n - 1]);
        assert(after.metas[last].constraints == longer);
        assert(longer[list.len() as int] == constraints[n - 1]);
        assert forall|k: int| #![trigger changes[k]] 0 <= k < n implies after.metas[changes[k]
            as int].constraints.contains(constraints[k]) by {
            if k < n - 1 {
                let cs = before.metas[changes[k] as int].constraints;
                assert(cs.contains(constraints[k]));
                let at = choose|at: int| 0 <= at < cs.len() && cs[at] == constraints[k];
                if changes[k] == last {
                    assert(longer[at] == constraints[k]);
                } else {
                    assert(after.metas[changes[k] as int] == before.metas[changes[k] as int]);
                }
            }
        }
        assert forall|x: int|
            0 <= x < h.metas.len() && (forall|k: int| 0 <= k < n ==> changes[k] != x) implies (
        #[trigger] after.metas[x]) == h.metas[x] by {
            assert(before.metas[x] == h.metas[x]);
        }
    }
}

proof fn lemma_imposed_drawn(
    h: Heap,
    changes: Seq<MetaId>,
    constraints: Seq<ConstraintView>,
    n: nat,
    next: u64,
)
    requires
        present(h, changes),
        n <= changes.len() == constraints.len(),
        drawn_heap(h, next),
        all_drawn(constraints, next),
    ensures
        drawn_heap(imposed(h, changes, constraints, n), next),
    decreases n,
{
    if n > 0 {
        let before = imposed(h, changes, constraints, (n - 1) as nat);
        let after = imposed(h, changes, constraints, n);
        lemma_imposed_drawn(h, changes, constraints, (n - 1) as nat, next);
        lemma_imposed(h, changes, constraints, (n - 1) as nat);
        let last = changes[n - 1] as int;
        assert(last < h.metas.len());
        assert forall|x: int| 0 <= x < after.metas.len() implies drawn_meta(
            #[trigger] after.metas[x],
            next,
        ) by {
            assert(drawn_meta(before.metas[x], next));
            if x == last {
                let list = before.metas[x].constraints;
                let longer = after.metas[x].constraints;
                assert forall|k: int| 0 <= k < longer.len() implies drawn_constraint(
                    #[trigger] longer[k],
                    next,
                ) by {
                    if k < list.len() {
                        assert(longer[k] == list[k]);
                    } else {
                        assert(longer[k] == constraints[n - 1]);
                    }
                }
            }
        }
    }
}

/// What is known of the test of a possible assignment.
pub proof fn lemma_trial(
    h: Heap,
    head: DeBruijnIndex,
    node: NodeView,
    m: MetaId,
    fuel: nat,
    next: u64,
)
    requires
        open_meta(h, m),
        attempt(h, head, node, m, fuel, next) matches Ok((Some(Some(c)), g, n)),
    ensures
        ({
            let (o, g, n) = attempt(h, head, node, m, fuel, next)->Ok_0;
            let c = o->0->0;
            let t = trial_of(h, head, node, m, fuel, next);
            let ctx = node.entry.context->0;
            let var_type = applied_type(h, ctx, head.1, m, next);
            let p = t.left(m);
            let h1 = with_args(h, ctx, head.1, m);
            &&& node.entry.context is Some
            &&& part_at(ctx, head.1) is Some
            &&& applicable(h, ctx, head.1, m)
            &&& next + 2 * STRIDE <= u64::MAX
            &&& whnf(
                h1,
                codomain(var_type),
                true,
                false,
                fuel,
                fresh((next + 2 * STRIDE) as u64),
            ) matches Ok((w, e)) && e.next == t.effects.next
            &&& t.outcome(m) == Ok::<(bool, Progress), Fault>((true, p))
            &&& c.constraints == p.constraints
            &&& c.assignment == (crate::data::AssignmentView {
                changes: p.changes,
                ..t.heap.metas[m as int].assignment->0
            })
            &&& t.heap.metas[m as int].assignment matches Some(a) && a.var_type == Some(var_type)
                && a.bind == var_type.bind && a.args == positions(
                h.metas.len(),
                var_type.base.types.params@.len(),
            )
            &&& type_args(
                h1,
                var_type,
                h.metas[m as int].gamma,
                c.assignment.args,
                0,
                p.effects.next,
            ) == Ok::<(Heap, u64), Fault>((g, n))
        }),
{
    reveal(attempt);
    let ctx = node.entry.context->0;
    let h1 = with_args(h, ctx, head.1, m);
    assert(h1.metas[m as int] == h.metas[m as int]);
    assert(h1.with_assignment(m, None).metas =~= h1.metas);
}

pub proof fn lemma_obligations_drawn(
    h: Heap,
    head: DeBruijnIndex,
    node: NodeView,
    m: MetaId,
    fuel: nat,
    next: u64,
)
    requires
        open_meta(h, m),
        drawn_heap(h, next),
        drawn_node(node, next),
        attempt(h, head, node, m, fuel, next) matches Ok((Some(Some(c)), g, n)),
    ensures
        ({
            let t = trial_of(h, head, node, m, fuel, next);
            &&& all_drawn(obligations(t.heap, m), t.effects.next)
            &&& next <= t.effects.next
            &&& drawn(
                applied_type(h, node.entry.context->0, head.1, m, next).es,
                t.effects.next,
            )
        }),
{
    lemma_trial(h, head, node, m, fuel, next);
    let t = trial_of(h, head, node, m, fuel, next);
    let later = (next + 2 * STRIDE) as u64;
    let end = t.effects.next;
    let ctx = node.entry.context->0;
    let gamma = h.metas[m as int].gamma;
    let var_type = applied_type(h, ctx, head.1, m, next);
    assert(drawn_meta(h.metas[m as int], next));
    lemma_es_drawn_later(ctx.es, next, later);
    lemma_es_drawn_later(gamma, next, later);
    lemma_applied_drawn(h, ctx, head.1, m, next);
    law_whnf_drawn(
        with_args(h, ctx, head.1, m),
        codomain(var_type),
        true,
        false,
        fuel,
        fresh(later),
    );
    lemma_es_drawn_later(var_type.es, later, end);
    let goal = h.metas[m as int].typ->0;
    lemma_es_drawn_later(goal.es, next, end);
    let a = t.heap.metas[m as int].assignment->0;
    let all = obligations(t.heap, m);
    let redexes = h.binds[a.bind as int].redexes;
    assert(t.heap.metas[m as int].constraints == h.metas[m as int].constraints);
    assert forall|k: int| 0 <= k < all.len() implies drawn_constraint(#[trigger] all[k], end) by {
        if k > 0 && k <= redexes.len() {
            assert(h.binds[a.bind as int].redexes[k - 1].len() <= usize::MAX);
            assert(all[k] == crate::meta::redex_constraints(t.heap, redexes, m)[k - 1]);
        } else if k > 0 {
            let c = h.metas[m as int].constraints[k - 1 - redexes.len()];
            assert(all[k] == c);
            lemma_drawn_later(c, next, end);
        }
    }
}

pub proof fn lemma_applied_drawn(h: Heap, ctx: TypeView, index: Index, m: MetaId, next: u64)
    requires
        next + 2 * STRIDE <= u64::MAX,
        drawn(ctx.es, (next + 2 * STRIDE) as u64),
        drawn(h.metas[m as int].gamma, (next + 2 * STRIDE) as u64),
    ensures
        drawn(applied_type(h, ctx, index, m, next).es, (next + 2 * STRIDE) as u64),
{
    let entry = applied_entry(h, ctx, index, m, next);
    lemma_type_at_drawn(h, ctx, index, entry, (next + 2 * STRIDE) as u64);
}

/// The entry that applies the variable at `index` to new metavariables.
spec fn applied_entry(
    h: Heap,
    ctx: TypeView,
    index: Index,
    m: MetaId,
    next: u64,
) -> crate::data::EntryView {
    let tb = crate::types::part(*ctx.base, index)->0;
    let args = positions(h.metas.len(), tb.types.params@.len());
    subst_entry(SubstView { args, es: h.metas[m as int].gamma }, next)
}

/// Testing an assignment leaves no identifier that is yet to be drawn.
pub proof fn law_attempt_drawn(
    h: Heap,
    head: DeBruijnIndex,
    node: NodeView,
    m: MetaId,
    fuel: nat,
    next: u64,
)
    requires
        open_meta(h, m),
        drawn_heap(h, next),
        drawn_node(node, next),
        h.metas.len() + arity(node, head.1) <= usize::MAX,
        attempt(h, head, node, m, fuel, next) matches Ok((Some(Some(c)), g, n)),
    ensures
        ({
            let (o, g, n) = attempt(h, head, node, m, fuel, next)->Ok_0;
            &&& drawn_heap(g, n)
            &&& all_drawn(o->0->0.constraints, n)
            &&& next <= n
        }),
{
    let (o, g, n) = attempt(h, head, node, m, fuel, next)->Ok_0;
    let c = o->0->0;
    let t = trial_of(h, head, node, m, fuel, next);
    let h1 = with_args(h, node.entry.context->0, head.1, m);
    let var_type = applied_type(h, node.entry.context->0, head.1, m, next);
    let p = t.left(m);
    let gamma = h.metas[m as int].gamma;
    let args = c.assignment.args;
    let len = h.metas.len();
    lemma_trial(h, head, node, m, fuel, next);
    law_test_frame(h, head, node, m, fuel, next);
    lemma_obligations_drawn(h, head, node, m, fuel, next);
    let all = obligations(t.heap, m);
    let first = Progress {
        constraints: Seq::empty(),
        changes: Seq::empty(),
        effects: t.effects,
    };
    law_all_progress(t.heap, all, 0, first, fuel);
    law_all_drawn(t.heap, all, 0, first, fuel);
    assert(progresses(t.heap, first, p));
    assert(h1.metas.len() == len + args.len());
    assert forall|k: int| 0 <= k < args.len() implies (#[trigger] args[k]) < h1.metas.len() by {
        assert(args[k] == len + k);
    }
    lemma_heap_drawn_later(h, next, p.effects.next);
    assert(drawn_meta(h.metas[m as int], p.effects.next));
    assert forall|x: int| 0 <= x < h1.metas.len() implies drawn_meta(
        #[trigger] h1.metas[x],
        p.effects.next,
    ) by {
        if x < len {
            assert(h1.metas[x] == h.metas[x]);
        } else {
            assert(h1.metas[x].gamma.len() == 0);
            assert(h1.metas[x].constraints.len() == 0);
            assert(h1.metas[x].typ is None);
        }
    }
    lemma_es_drawn_later(var_type.es, t.effects.next, p.effects.next);
    lemma_type_args_drawn(h1, var_type, gamma, args, 0, p.effects.next);
    assert forall|k: int| 0 <= k < p.constraints.len() implies drawn_constraint(
        #[trigger] p.constraints[k],
        n,
    ) by {
        lemma_drawn_later(p.constraints[k], p.effects.next, n);
    }
}

/// Making an assignment leaves no identifier that is yet to be drawn.
pub proof fn law_assign_drawn(h: Heap, m: MetaId, c: CandidateView, next: u64)
    requires
        drawn_heap(h, next),
        all_drawn(c.constraints, next),
        candidate_fits(h, m, c),
        m < h.metas.len(),
    ensures
        drawn_heap(with_candidate(h, m, c), next),
{
    let changes = c.assignment.changes;
    let mid = imposed(h, changes, c.constraints, changes.len());
    lemma_imposed(h, changes, c.constraints, changes.len());
    lemma_imposed_drawn(h, changes, c.constraints, changes.len(), next);
    let end = with_candidate(h, m, c);
    assert(end == mid.with_assignment(m, Some(c.assignment)));
    assert forall|x: int| 0 <= x < end.metas.len() implies drawn_meta(
        #[trigger] end.metas[x],
        next,
    ) by {
        assert(drawn_meta(mid.metas[x], next));
    }
}

/// Whether `g` is `h` with nothing taken back, where `m` is still open and no constraint has come
/// to it.
pub open spec fn waits(h: Heap, g: Heap, m: MetaId) -> bool {
    &&& grows(h, g)
    &&& open_meta(g, m)
    &&& m < h.metas.len()
    &&& g.metas[m as int].typ == h.metas[m as int].typ
    &&& g.metas[m as int].constraints == h.metas[m as int].constraints
}

/// Making an assignment that was found possible is a step, if `m` has waited for it since, and so
/// have the metavariables that a constraint is left on.
pub proof fn law_step(
    start: Heap,
    h: Heap,
    steps: Seq<Step>,
    before: Heap,
    head: DeBruijnIndex,
    node: NodeView,
    m: MetaId,
    fuel: nat,
    next: u64,
)
    requires
        recorded(start, h, steps),
        grows(start, before),
        drawn_heap(before, next),
        drawn_node(node, next),
        open_meta(before, m),
        before.metas.len() + arity(node, head.1) <= usize::MAX,
        attempt(before, head, node, m, fuel, next) matches Ok((Some(Some(c)), g, n)) && waits(
            g,
            h,
            m,
        ) && forall|k: int|
            0 <= k < c.assignment.changes.len() ==> open_meta(
                h,
                #[trigger] c.assignment.changes[k],
            ),
    ensures
        ({
            let c = (attempt(before, head, node, m, fuel, next)->Ok_0).0->0->0;
            recorded(
                start,
                with_candidate(h, m, c),
                steps.push(Step { meta: m, trial: trial_of(before, head, node, m, fuel, next) }),
            )
        }),
{
    let (o, g, n) = attempt(before, head, node, m, fuel, next)->Ok_0;
    let c = o->0->0;
    let t = trial_of(before, head, node, m, fuel, next);
    let h1 = with_args(before, node.entry.context->0, head.1, m);
    let var_type = applied_type(before, node.entry.context->0, head.1, m, next);
    let p = t.left(m);
    let args = c.assignment.args;
    let len = before.metas.len();
    lemma_trial(before, head, node, m, fuel, next);
    law_test_frame(before, head, node, m, fuel, next);
    lemma_obligations_drawn(before, head, node, m, fuel, next);
    let first = Progress {
        constraints: Seq::empty(),
        changes: Seq::empty(),
        effects: t.effects,
    };
    law_all_progress(t.heap, obligations(t.heap, m), 0, first, fuel);
    assert(progresses(t.heap, first, p));
    assert(h1.metas.len() == len + args.len());
    assert forall|k: int| 0 <= k < args.len() implies (#[trigger] args[k]) < h1.metas.len() by {
        assert(args[k] == len + k);
    }
    lemma_type_args_keep(h1, var_type, before.metas[m as int].gamma, args, 0, p.effects.next);
    assert(g.metas[m as int] == before.metas[m as int]) by {
        assert(g.metas.take(len as int)[m as int] == g.metas[m as int]);
        assert(before.with_assignment(m, None).metas[m as int] == before.metas[m as int]);
    }
    let changes = p.changes;
    let mid = imposed(h, changes, p.constraints, changes.len());
    let end = with_candidate(h, m, c);
    assert(present(h, changes));
    lemma_imposed(h, changes, p.constraints, changes.len());
    lemma_imposed_in_place(h, changes, p.constraints, changes.len());
    assert(end == mid.with_assignment(m, Some(c.assignment)));
    assert forall|x: int| 0 <= x < end.metas.len() implies (#[trigger] end.metas[x]).bindings
        == h.metas[x].bindings && end.metas[x].parent == h.metas[x].parent && (x != m
        ==> end.metas[x].assignment == h.metas[x].assignment) by {
        assert(mid.metas[x].bindings == h.metas[x].bindings);
    }
    assert(grows(h, end)) by {
        assert forall|x: int|
            #![trigger end.metas[x]]
            0 <= x < h.metas.len() implies end.metas[x].bindings == h.metas[x].bindings
            && end.metas[x].parent == h.metas[x].parent && (
        h.metas[x].assignment matches Some(a) ==> (end.metas[x].assignment matches Some(b)
            && b.head == a.head && b.args == a.args && b.bind == a.bind)) by {}
    }
    assert(grows(before, t.heap)) by {
        assert forall|x: int|
            #![trigger t.heap.metas[x]]
            0 <= x < len implies t.heap.metas[x].bindings == before.metas[x].bindings
            && t.heap.metas[x].parent == before.metas[x].parent && (
        before.metas[x].assignment matches Some(a) ==> (t.heap.metas[x].assignment matches Some(b)
            && b.head == a.head && b.args == a.args && b.bind == a.bind)) by {
            assert(h1.metas[x] == before.metas[x]);
        }
    }
    assert(grows(t.heap, end)) by {
        assert forall|x: int|
            #![trigger end.metas[x]]
            0 <= x < t.heap.metas.len() implies end.metas[x].bindings == t.heap.metas[x].bindings
            && end.metas[x].parent == t.heap.metas[x].parent && (
        t.heap.metas[x].assignment matches Some(a) ==> (end.metas[x].assignment matches Some(b)
            && b.head == a.head && b.args == a.args && b.bind == a.bind)) by {
            assert(g.metas[x].bindings == h1.metas[x].bindings);
            assert(h.metas[x].bindings == g.metas[x].bindings);
        }
    }
    lemma_grows_trans(start, before, t.heap);
    lemma_grows_trans(start, h, end);
    // no constraint came to what is assigned, nor to `m`
    assert forall|y: MetaId| h.assigned(y) || y == m implies (#[trigger] mid.metas[y as int])
        == h.metas[y as int] by {
        assert forall|k: int| 0 <= k < changes.len() implies changes[k] != y by {
            assert(open_meta(h, changes[k]));
            assert(open_meta(t.heap, changes[k]));
        }
    }
    assert(tested(end, m, t)) by {
        assert(mid.metas[m as int] == h.metas[m as int]);
        assert(obligations(t.heap, m) =~= obligations(end, m));
        assert(in_place(end, p)) by {
            assert forall|k: int| 0 <= k < changes.len() implies (#[trigger] changes[k])
                < end.metas.len() && end.metas[changes[k] as int].constraints.contains(
                p.constraints[k],
            ) by {
                assert(mid.metas[changes[k] as int].constraints.contains(p.constraints[k]));
            }
        }
    }
    let longer = steps.push(Step { meta: m, trial: t });
    assert forall|i: int| 0 <= i < longer.len() implies tested(
        end,
        (#[trigger] longer[i]).meta,
        longer[i].trial,
    ) && grows(start, longer[i].trial.heap) by {
        if i < steps.len() {
            assert(longer[i] == steps[i]);
            let (y, s) = (steps[i].meta, steps[i].trial);
            assert(tested(h, y, s));
            assert(h.metas[y as int].bindings == s.heap.metas[y as int].bindings);
            assert(mid.metas[y as int] == h.metas[y as int]);
            assert(end.metas[y as int] == h.metas[y as int]);
            lemma_grows_trans(s.heap, h, end);
            assert(obligations(end, y) =~= obligations(h, y));
            let q = s.left(y);
            assert forall|k: int| 0 <= k < q.changes.len() implies (#[trigger] q.changes[k])
                < end.metas.len() && end.metas[q.changes[k] as int].constraints.contains(
                q.constraints[k],
            ) by {
                let z = q.changes[k] as int;
                let few = h.metas[z].constraints;
                let many = end.metas[z].constraints;
                assert(few.contains(q.constraints[k]));
                let at = choose|at: int| 0 <= at < few.len() && few[at] == q.constraints[k];
                assert(few.is_prefix_of(mid.metas[z].constraints));
                assert(many == mid.metas[z].constraints);
                assert(many[at] == few[at]);
            }
        }
    }
    assert forall|i: int, j: int| 0 <= j <= i < longer.len() implies apart(
        #[trigger] longer[i],
        #[trigger] longer[j],
    ) by {
        if i < steps.len() {
            assert(longer[i] == steps[i] && longer[j] == steps[j]);
        } else {
            assert forall|k: int| 0 <= k < changes.len() implies (#[trigger] t.left(m).changes[k])
                != longer[j].meta by {
                assert(open_meta(h, changes[k]));
                assert(open_meta(t.heap, changes[k]));
                if j < steps.len() {
                    assert(longer[j] == steps[j]);
                    let (y, s) = (steps[j].meta, steps[j].trial);
                    assert(tested(h, y, s));
                    assert(h.metas[y as int].bindings == s.heap.metas[y as int].bindings);
                }
            }
        }
    }
    assert forall|y: MetaId| #[trigger] end.assigned(y) implies start.assigned(y) || made(
        longer,
        y,
    ) by {
        if y == m {
            assert(longer[steps.len() as int].meta == m);
        } else {
            assert(end.metas[y as int].assignment == h.metas[y as int].assignment);
            assert(h.assigned(y));
            if !start.assigned(y) {
                let j = choose|j: int| 0 <= j < steps.len() && (#[trigger] steps[j]).meta == y;
                assert(longer[j].meta == y);
            }
        }
    }
}

/// Whether `g` differs from `h` in nothing that bears on assignments and constraints, but for
/// further unassigned metavariables.
pub open spec fn quiet(h: Heap, g: Heap) -> bool {
    &&& h.metas.len() <= g.metas.len()
    &&& h.binds == g.binds
    &&& forall|x: int|
        0 <= x < h.metas.len() ==> (#[trigger] g.metas[x]) == (MetaView {
            had_rigid_equation: g.metas[x].had_rigid_equation,
            ..h.metas[x]
        })
    &&& forall|x: int|
        h.metas.len() <= x < g.metas.len() ==> (#[trigger] g.metas[x]).assignment is None
}

/// Further metavariables, as they come of tests, leave the steps as they are.
pub proof fn law_steps_kept(start: Heap, h: Heap, g: Heap, steps: Seq<Step>)
    requires
        recorded(start, h, steps),
        quiet(h, g),
    ensures
        recorded(start, g, steps),
{
    assert(grows(h, g)) by {
        assert forall|x: int|
            #![trigger g.metas[x]]
            0 <= x < h.metas.len() implies g.metas[x].bindings == h.metas[x].bindings
            && g.metas[x].parent == h.metas[x].parent && (
        h.metas[x].assignment matches Some(a) ==> (g.metas[x].assignment matches Some(b) && b.head
            == a.head && b.args == a.args && b.bind == a.bind)) by {}
    }
    lemma_grows_trans(start, h, g);
    assert forall|i: int| 0 <= i < steps.len() implies tested(
        g,
        (#[trigger] steps[i]).meta,
        steps[i].trial,
    ) && grows(start, steps[i].trial.heap) by {
        let (y, s) = (steps[i].meta, steps[i].trial);
        assert(tested(h, y, s));
        assert(h.metas[y as int].bindings == s.heap.metas[y as int].bindings);
        lemma_grows_trans(s.heap, h, g);
        assert(g.metas[y as int].bindings == h.metas[y as int].bindings);
        assert(obligations(g, y) =~= obligations(h, y));
        let q = s.left(y);
        assert forall|k: int| 0 <= k < q.changes.len() implies (#[trigger] q.changes[k])
            < g.metas.len() && g.metas[q.changes[k] as int].constraints.contains(
            q.constraints[k],
        ) by {
            let z = q.changes[k] as int;
            assert(h.metas[z].constraints.contains(q.constraints[k]));
            assert(g.metas[z].constraints == h.metas[z].constraints);
        }
    }
    assert forall|y: MetaId| #[trigger] g.assigned(y) implies start.assigned(y) || made(
        steps,
        y,
    ) by {
        if y < h.metas.len() {
            assert(g.metas[y as int].assignment == h.metas[y as int].assignment);
            assert(h.assigned(y));
        }
    }
}

/// Before anything is assigned, there are no steps.
pub proof fn law_no_steps(h: Heap)
    ensures
        recorded(h, h, Seq::empty()),
{
}

/// Where variables have no rules, reductions lose nothing that was found in the tests of the steps.
pub proof fn law_steps_keep_forms(start: Heap, g: Heap, steps: Seq<Step>)
    requires
        recorded(start, g, steps),
        without_rules(g),
    ensures
        forms_kept(g, steps),
{
    assert forall|k: int| 0 <= k < steps.len() implies keeps_forms(
        (#[trigger] steps[k]).trial.heap,
        g,
    ) by {
        assert(tested(g, steps[k].meta, steps[k].trial));
        law_forms_kept(steps[k].trial.heap, g);
    }
}

/// Steps from `start` on settle every constraint that was imposed on the way, once every
/// metavariable that one was left on has been assigned, where variables have no rules.
pub proof fn law_assignments_settled(
    start: Heap,
    g: Heap,
    steps: Seq<Step>,
    x: MetaId,
    j: int,
)
    requires
        recorded(start, g, steps),
        nothing_open(g, steps),
        without_rules(g),
        g.assigned(x),
        !start.assigned(x),
        0 <= j < obligations(g, x).len(),
    ensures
        settled(g, obligations(g, x)[j]),
{
    law_steps_keep_forms(start, g, steps);
    assert(made(steps, x));
    let i = choose|i: int| 0 <= i < steps.len() && (#[trigger] steps[i]).meta == x;
    law_steps_settled(start, g, steps, i, j);
}

/// Giving arguments their types draws identifiers, and adds nothing.
proof fn lemma_type_args_grow(
    h: Heap,
    var_type: TypeView,
    gamma: Seq<NodeView>,
    args: Seq<MetaId>,
    i: nat,
    next: u64,
)
    requires
        forall|k: int| 0 <= k < args.len() ==> (#[trigger] args[k]) < h.metas.len(),
    ensures
        type_args(h, var_type, gamma, args, i, next) matches Ok((g, n)) ==> g.metas.len()
            == h.metas.len() && next <= n,
    decreases args.len() - i,
{
    let index = Index::Param(i as usize);
    if i < args.len() && has_type(h, var_type, index) && next + 2 * STRIDE <= u64::MAX {
        let m = h.metas[args[i as int] as int];
        let entry = crate::es::vars_entry(next, (next + STRIDE) as u64);
        let typ = type_at(h, var_type, index, entry);
        let node = NodeView { entry: typed_entry(next, typ), bindings: m.bindings };
        let meta = MetaView { gamma: crate::es::appended(gamma, node), typ: Some(typ), ..m };
        let h2 = h.with_meta(args[i as int], meta);
        lemma_type_args_grow(h2, var_type, gamma, args, i + 1, (next + 2 * STRIDE) as u64);
    }
}

/// Testing an assignment only ever draws identifiers, and adds the arguments where it is possible.
proof fn lemma_attempt_grows(
    h: Heap,
    head: DeBruijnIndex,
    node: NodeView,
    m: MetaId,
    fuel: nat,
    next: u64,
)
    requires
        m < h.metas.len(),
    ensures
        attempt(h, head, node, m, fuel, next) matches Ok((o, g, n)) ==> {
            &&& next <= n
            &&& o matches Some(Some(_)) ==> g.metas.len() == h.metas.len() + arity(node, head.1)
        },
{
    reveal(attempt);
    if let Some(ctx) = node.entry.context {
        if ctx.base.types@.has(head.1) && part_at(ctx, head.1) is Some && applicable(
            h,
            ctx,
            head.1,
            m,
        ) && next + 2 * STRIDE <= u64::MAX {
            let h1 = with_args(h, ctx, head.1, m);
            let var_type = applied_type(h, ctx, head.1, m, next);
            let from = fresh((next + 2 * STRIDE) as u64);
            law_whnf_normal(h1, codomain(var_type), true, false, fuel, from);
            if let Ok((w, e)) = whnf(h1, codomain(var_type), true, false, fuel, from) {
                let a = proposed(h, head, var_type, w.head is Var);
                let trial = h1.with_assignment(m, Some(a));
                let first = Progress {
                    constraints: Seq::empty(),
                    changes: Seq::empty(),
                    effects: Effects {
                        next: e.next,
                        links: links_at(h, ctx, head.1),
                        noted: Seq::empty(),
                    },
                };
                law_all_progress(trial, obligations(trial, m), 0, first, fuel);
                if let Ok((true, p)) = reduce_all(trial, obligations(trial, m), 0, first, fuel) {
                    assert forall|k: int| 0 <= k < a.args.len() implies (#[trigger] a.args[k])
                        < h1.metas.len() by {
                        assert(a.args[k] == (h.metas.len() + k) as usize);
                        assert(h1.metas.len() == h.metas.len() + a.args.len());
                    }
                    lemma_type_args_grow(
                        h1.with_assignment(m, None),
                        var_type,
                        h1.metas[m as int].gamma,
                        a.args,
                        0,
                        p.effects.next,
                    );
                }
            }
        }
    }
}

proof fn lemma_options_grow(h: Heap, m: MetaId, k: nat, fuel: nat, next: u64)
    requires
        m < h.metas.len(),
    ensures
        options(h, m, k, fuel, next) matches Ok((_, n)) ==> next <= n,
    decreases k,
{
    let es = h.metas[m as int].gamma;
    if k > 0 && k <= variables(es).len() {
        lemma_options_grow(h, m, (k - 1) as nat, fuel, next);
        if let Ok((_, n)) = options(h, m, (k - 1) as nat, fuel, next) {
            lemma_attempt_grows(
                h,
                variables(es)[k - 1].0,
                es[crate::es::depths(es)[k - 1]],
                m,
                fuel,
                n,
            );
        }
    }
}

proof fn lemma_forced_grow(h: Heap, ms: Seq<MetaId>, i: nat, fuel: nat, next: u64)
    requires
        all_open(h, ms),
    ensures
        forced(h, ms, i, fuel, next) matches Ok((_, n)) ==> next <= n,
    decreases ms.len() - i,
{
    if i < ms.len() {
        let m = ms[i as int];
        let k = variables(h.metas[m as int].gamma).len();
        lemma_options_grow(h, m, k, fuel, next);
        if let Ok((_, n)) = options(h, m, k, fuel, next) {
            lemma_forced_grow(h, ms, i + 1, fuel, n);
        }
    }
}

/// Whether the metavariables can be numbered after each of the assignments of `played`.
pub open spec fn numbered(
    h: Heap,
    root: MetaId,
    m: MetaId,
    db: DeBruijnIndex,
    k: nat,
    autofill: bool,
    fuel: nat,
    next: u64,
) -> bool
    decreases k,
{
    k > 0 ==> match attempt(h, db, h.metas[m as int].gamma[db.0.0 as int], m, fuel, next) {
        Ok((Some(Some(c)), g, n)) => {
            let h1 = with_candidate(g, m, c);
            &&& g.metas.len() <= usize::MAX
            &&& forced(h1, leaves(h1, root), 0, fuel, n) matches Ok((Some((m1, db1)), n1))
                ==> numbered(h1, root, m1, db1, (k - 1) as nat, autofill, fuel, n1)
        },
        _ => true,
    }
}

/// What is assigned by hand, and by forced moves after it, are steps that have been tested: if
/// steps lead to the term before, then steps lead to the term after, as long as the metavariables
/// can be numbered.
pub proof fn law_refinement_recorded(
    start: Heap,
    h: Heap,
    steps: Seq<Step>,
    root: MetaId,
    m: MetaId,
    db: DeBruijnIndex,
    k: nat,
    autofill: bool,
    fuel: nat,
    next: u64,
)
    requires
        recorded(start, h, steps),
        drawn_heap(h, next),
        open_meta(h, m),
        sane(h),
        root < h.metas.len(),
        played(h, root, m, db, k, autofill, fuel, next) is Ok,
        numbered(h, root, m, db, k, autofill, fuel, next),
    ensures
        ({
            let (g, n) = played(h, root, m, db, k, autofill, fuel, next)->Ok_0;
            &&& drawn_heap(g, n)
            &&& exists|more: Seq<Step>| #[trigger] recorded(start, g, more)
        }),
    decreases k,
{
    let es = h.metas[m as int].gamma;
    let (end, last) = played(h, root, m, db, k, autofill, fuel, next)->Ok_0;
    if k > 0 {
        let node = es[db.0.0 as int];
        lemma_attempt_grows(h, db, node, m, fuel, next);
        match attempt(h, db, node, m, fuel, next) {
            Ok((Some(Some(c)), g, n)) => {
                let h1 = with_candidate(g, m, c);
                assert(h.metas.len() + arity(node, db.1) <= usize::MAX);
                assert(drawn_meta(h.metas[m as int], next));
                lemma_drawn_at(es, next, db.0.0 as int);
                law_test_frame(h, db, node, m, fuel, next);
                lemma_attempt_grown(h, db, node, m, fuel, next);
                lemma_grown_sane(h, g, m);
                lemma_with_candidate(g, m, c);
                assert forall|x: int| 0 <= x < h.metas.len() implies (#[trigger] g.metas[x])
                    == h.metas[x] by {
                    assert(g.metas.take(h.metas.len() as int)[x] == g.metas[x]);
                    assert(h.with_assignment(m, None).metas[x] == h.metas[x]);
                }
                law_steps_kept(start, h, g, steps);
                assert(waits(g, g, m));
                law_step(start, g, steps, h, db, node, m, fuel, next);
                law_attempt_drawn(h, db, node, m, fuel, next);
                law_assign_drawn(g, m, c, n);
                let step = Step { meta: m, trial: trial_of(h, db, node, m, fuel, next) };
                assert(recorded(start, h1, steps.push(step)));
                if autofill {
                    lemma_leaves_open(h1, root);
                    assert(all_open(h1, leaves(h1, root)));
                    lemma_forced_grow(h1, leaves(h1, root), 0, fuel, n);
                    match forced(h1, leaves(h1, root), 0, fuel, n) {
                        Ok((None, n1)) => {
                            lemma_heap_drawn_later(h1, n, n1);
                        },
                        Ok((Some((m1, db1)), n1)) => {
                            lemma_heap_drawn_later(h1, n, n1);
                            lemma_forced_member(h1, leaves(h1, root), 0, fuel, n);
                            law_refinement_recorded(
                                start,
                                h1,
                                steps.push(step),
                                root,
                                m1,
                                db1,
                                (k - 1) as nat,
                                autofill,
                                fuel,
                                n1,
                            );
                        },
                        Err(_) => {},
                    }
                }
            },
            Ok((_, _, n)) => {
                lemma_heap_drawn_later(h, next, n);
            },
            Err(_) => {},
        }
    }
}

} // verus!
