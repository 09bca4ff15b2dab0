//! What holds of every propagation of constraints, and of taking assignments back.
use crate::alike::law_whnf_idempotent;
use crate::constraint::{
    ancestor, reduce_args, reduce_constraint, reduce_equation, walk, Progress, Walk, LINK_LIMIT,
};
use crate::data::{
    AssignmentView, ConstraintView, EquationView, Head, Instruction, MetaId, MetaView, RedexView,
};
use crate::es::{links, vars_entry};
use crate::ids::{Fault, STRIDE};
use crate::memory::{without_last, Heap};
use crate::meta::{imposed, present, reduce_all, relieved};
use crate::normal::{extends, law_whnf_normal, open_meta};
use crate::term::{arg_bindings, args_of, argument, has_arg, whnf, Effects};
use vstd::prelude::*;

verus! {

/// Whether `after` can come of `before`: stuck constraints are only ever added, each with the
/// metavariable that it is stuck on, which is unassigned.
pub open spec fn progresses(h: Heap, before: Progress, after: Progress) -> bool {
    &&& before.constraints.is_prefix_of(after.constraints)
    &&& before.changes.is_prefix_of(after.changes)
    &&& after.constraints.len() - before.constraints.len() == after.changes.len()
        - before.changes.len()
    &&& forall|k: int|
        before.changes.len() <= k < after.changes.len() ==> open_meta(
            h,
            #[trigger] after.changes[k],
        )
    &&& extends(before.effects, after.effects)
}

/// Whether propagating `c` finds nothing but that `c` is stuck on `m`, unless identifiers run out
/// or too many links have been made.
pub open spec fn sticks(h: Heap, c: ConstraintView, m: MetaId, p: Progress, fuel: nat) -> bool {
    match reduce_constraint(h, c, p, fuel) {
        Err(f) => f == Fault::Exhausted,
        Ok((holds, p2)) => p.effects.links > LINK_LIMIT || (holds && p2.constraints
            == p.constraints.push(c) && p2.changes == p.changes.push(m)),
    }
}

/// Whether `c` is stuck on `m`: at a depth of `fuel` or more, whatever comes before.
pub open spec fn stuck_on(h: Heap, c: ConstraintView, m: MetaId, fuel: nat) -> bool {
    forall|p: Progress, more: nat| fuel <= more ==> #[trigger] sticks(h, c, m, p, more)
}

/// Whether each new constraint is stuck on the new metavariable at the same place.
pub open spec fn pinned(h: Heap, before: Progress, after: Progress, fuel: nat) -> bool {
    forall|k: int|
        before.changes.len() <= k < after.changes.len() ==> stuck_on(
            h,
            after.constraints[k - before.changes.len() + before.constraints.len()],
            #[trigger] after.changes[k],
            fuel,
        )
}

proof fn lemma_pinned_trans(h: Heap, a: Progress, b: Progress, c: Progress, fuel: nat, more: nat)
    requires
        progresses(h, a, b),
        progresses(h, b, c),
        pinned(h, a, b, fuel),
        pinned(h, b, c, fuel),
        fuel <= more,
    ensures
        pinned(h, a, c, more),
{
    assert forall|k: int| a.changes.len() <= k < c.changes.len() implies stuck_on(
        h,
        c.constraints[k - a.changes.len() + a.constraints.len()],
        #[trigger] c.changes[k],
        more,
    ) by {
        if k < b.changes.len() {
            assert(b.changes[k] == c.changes[k]);
            let i = k - a.changes.len() + a.constraints.len();
            assert(b.constraints[i] == c.constraints[i]);
        }
    }
}

/// What stopped at a metavariable on the left stops there again.
proof fn lemma_premise_sticks(h: Heap, q: EquationView, e: Effects, fuel: nat)
    requires
        fuel > 0,
        whnf(h, q.premise, true, false, (fuel - 1) as nat, e) matches Ok((w, _)) && w.head is Meta,
    ensures
        ({
            let w = (whnf(h, q.premise, true, false, (fuel - 1) as nat, e)->Ok_0).0;
            stuck_on(
                h,
                ConstraintView::Equation(EquationView { premise: w.term, ..q }),
                w.head->Meta_0,
                fuel,
            )
        }),
{
    let less = (fuel - 1) as nat;
    let w = (whnf(h, q.premise, true, false, less, e)->Ok_0).0;
    let c = EquationView { premise: w.term, ..q };
    let m = w.head->Meta_0;
    assert forall|p: Progress, more: nat| fuel <= more implies #[trigger] sticks(
        h,
        ConstraintView::Equation(c),
        m,
        p,
        more,
    ) by {
        law_whnf_idempotent(
            h,
            q.premise,
            true,
            false,
            less,
            e,
            (more - 1) as nat,
            p.effects,
        );
    }
}

/// What stopped at a metavariable on the right stops there again.
proof fn lemma_goal_sticks(h: Heap, q: EquationView, e: Effects, f: Effects, fuel: nat)
    requires
        fuel > 0,
        whnf(h, q.premise, true, false, (fuel - 1) as nat, e) matches Ok((w, _)) && w.head is Var,
        whnf(h, q.goal, true, false, (fuel - 1) as nat, f) matches Ok((w, _)) && w.head is Meta,
    ensures
        ({
            let v = (whnf(h, q.premise, true, false, (fuel - 1) as nat, e)->Ok_0).0;
            let w = (whnf(h, q.goal, true, false, (fuel - 1) as nat, f)->Ok_0).0;
            stuck_on(
                h,
                ConstraintView::Equation(EquationView { premise: v.term, goal: w.term, ..q }),
                w.head->Meta_0,
                fuel,
            )
        }),
{
    let less = (fuel - 1) as nat;
    let v = (whnf(h, q.premise, true, false, less, e)->Ok_0).0;
    let w = (whnf(h, q.goal, true, false, less, f)->Ok_0).0;
    let c = EquationView { premise: v.term, goal: w.term, ..q };
    let m = w.head->Meta_0;
    assert forall|p: Progress, more: nat| fuel <= more implies #[trigger] sticks(
        h,
        ConstraintView::Equation(c),
        m,
        p,
        more,
    ) by {
        let room = (more - 1) as nat;
        law_whnf_idempotent(h, q.premise, true, false, less, e, room, p.effects);
        match whnf(h, c.premise, true, false, room, p.effects) {
            Ok((_, g)) => {
                law_whnf_idempotent(h, q.goal, true, false, less, f, room, g);
            },
            Err(_) => {},
        }
    }
}

proof fn lemma_progresses_trans(h: Heap, a: Progress, b: Progress, c: Progress)
    requires
        progresses(h, a, b),
        progresses(h, b, c),
    ensures
        progresses(h, a, c),
{
    assert forall|k: int| a.changes.len() <= k < c.changes.len() implies open_meta(
        h,
        #[trigger] c.changes[k],
    ) by {
        if k < b.changes.len() {
            assert(b.changes[k] == c.changes[k]);
        }
    }
}

/// Breaking an equation down only ever adds equations, each stuck on the unassigned metavariable
/// that is recorded at the same place.
pub proof fn law_equation_progresses(h: Heap, q: EquationView, p: Progress, fuel: nat)
    ensures
        reduce_equation(h, q, p, fuel) matches Ok((_, p2)) ==> progresses(h, p, p2) && pinned(
            h,
            p,
            p2,
            fuel,
        ),
    decreases fuel, 1nat, 0nat,
{
    if p.effects.links <= LINK_LIMIT && fuel > 0 {
        law_whnf_normal(h, q.premise, true, false, (fuel - 1) as nat, p.effects);
        match whnf(h, q.premise, true, false, (fuel - 1) as nat, p.effects) {
            Err(_) => {},
            Ok((premise, e)) => {
                if premise.head is Meta {
                    lemma_premise_sticks(h, q, p.effects, fuel);
                }
                if let Head::Var(lhs) = premise.head {
                    law_whnf_normal(h, q.goal, true, false, (fuel - 1) as nat, e);
                    match whnf(h, q.goal, true, false, (fuel - 1) as nat, e) {
                        Err(_) => {},
                        Ok((goal, e2)) => {
                            if goal.head is Meta {
                                lemma_goal_sticks(h, q, p.effects, e, fuel);
                            }
                            if goal.head is Var && e2.can_draw(1) {
                                let p2 = p.with(e2.plus(1, 0));
                                let sides = EquationView {
                                    premise: premise.term,
                                    goal: goal.term,
                                    ..q
                                };
                                lemma_args_progress(h, sides, e2.next, 0, p2, (fuel - 1) as nat);
                                match reduce_args(h, sides, e2.next, 0, p2, (fuel - 1) as nat) {
                                    Ok((_, p3)) => {
                                        lemma_progresses_trans(h, p, p2, p3);
                                        lemma_pinned_trans(h, p, p2, p3, (fuel - 1) as nat, fuel);
                                    },
                                    Err(_) => {},
                                }
                            }
                        },
                    }
                }
            },
        }
    }
}

pub proof fn lemma_args_progress(
    h: Heap,
    q: EquationView,
    var_id: u64,
    i: nat,
    p: Progress,
    fuel: nat,
)
    ensures
        reduce_args(h, q, var_id, i, p, fuel) matches Ok((_, p2)) ==> progresses(h, p, p2)
            && pinned(h, p, p2, fuel),
    decreases fuel + 1, 0nat, args_of(h, q.premise.base).len() - i,
{
    if i < args_of(h, q.premise.base).len() && has_arg(h, q.premise, i as int) && has_arg(
        h,
        q.goal,
        i as int,
    ) && p.effects.can_draw(2) {
        let left = vars_entry(var_id, p.effects.next);
        let right = vars_entry(var_id, (p.effects.next + STRIDE) as u64);
        let made = links(arg_bindings(h, q.premise, i as int)) + links(
            arg_bindings(h, q.goal, i as int),
        );
        let next = EquationView {
            premise: argument(h, q.premise, i as int, left),
            goal: argument(h, q.goal, i as int, right),
            ..q
        };
        let p1 = p.with(p.effects.plus(2, made));
        law_equation_progresses(h, next, p1, fuel);
        match reduce_equation(h, next, p1, fuel) {
            Err(_) => {},
            Ok((holds, p2)) => {
                lemma_progresses_trans(h, p, p1, p2);
                lemma_pinned_trans(h, p, p1, p2, fuel, fuel);
                if holds {
                    lemma_args_progress(h, q, var_id, i + 1, p2, fuel);
                    match reduce_args(h, q, var_id, i + 1, p2, fuel) {
                        Ok((_, p3)) => {
                            lemma_progresses_trans(h, p, p2, p3);
                            lemma_pinned_trans(h, p, p2, p3, fuel, fuel);
                        },
                        Err(_) => {},
                    }
                }
            },
        }
    }
}

/// Where the walk of a redex is stuck, it is stuck on an unassigned metavariable, and not
/// beyond the last instruction but one.
pub proof fn law_walk_stuck(h: Heap, instructions: Seq<Instruction>, i: nat, blame: MetaId)
    ensures
        walk(h, instructions, i, blame) matches Ok(Walk::Stuck(k, m)) ==> open_meta(h, m) && i
            <= k && (k == i || k < instructions.len()),
    decreases instructions.len() - i,
{
    if h.assigned(blame) && i < instructions.len() - 1 {
        if let Some(m) = ancestor(h, blame, instructions[i as int].parents as nat) {
            let child = instructions[i as int].child as int;
            if h.assigned(m) && child < args_of(h, m).len() {
                law_walk_stuck(h, instructions, i + 1, args_of(h, m)[child]);
            }
        }
    }
}

/// A walk that is stuck is stuck there again.
proof fn lemma_redex_sticks(h: Heap, r: RedexView, fuel: nat)
    ensures
        walk(h, r.instructions, r.position as nat, r.blame) matches Ok(Walk::Stuck(i, m))
            ==> stuck_on(
            h,
            ConstraintView::Redex(RedexView { position: i as usize, blame: m, ..r }),
            m,
            fuel,
        ),
{
    law_walk_stuck(h, r.instructions, r.position as nat, r.blame);
}

/// Propagating a list of constraints only ever adds constraints, each stuck on the unassigned
/// metavariable that is recorded at the same place.
pub proof fn law_all_progress(h: Heap, cs: Seq<ConstraintView>, k: nat, p: Progress, fuel: nat)
    ensures
        reduce_all(h, cs, k, p, fuel) matches Ok((_, p2)) ==> progresses(h, p, p2) && pinned(
            h,
            p,
            p2,
            fuel,
        ),
    decreases cs.len() - k,
{
    if k < cs.len() {
        match cs[k as int] {
            ConstraintView::Equation(q) => {
                law_equation_progresses(h, q, p, fuel);
            },
            ConstraintView::Redex(r) => {
                law_walk_stuck(h, r.instructions, r.position as nat, r.blame);
                lemma_redex_sticks(h, r, fuel);
            },
        }
        match reduce_constraint(h, cs[k as int], p, fuel) {
            Ok((true, p2)) => {
                law_all_progress(h, cs, k + 1, p2, fuel);
                match reduce_all(h, cs, k + 1, p2, fuel) {
                    Ok((_, p3)) => {
                        lemma_progresses_trans(h, p, p2, p3);
                        lemma_pinned_trans(h, p, p2, p3, fuel, fuel);
                    },
                    Err(_) => {},
                }
            },
            _ => {},
        }
    }
}

/// How often `m` occurs among the first `n` of `ms`.
pub open spec fn occurrences(ms: Seq<MetaId>, n: nat, m: int) -> nat
    decreases n,
{
    if n == 0 {
        0
    } else {
        occurrences(ms, (n - 1) as nat, m) + if ms[n - 1] == m {
            1nat
        } else {
            0
        }
    }
}

pub proof fn lemma_imposed(
    h: Heap,
    changes: Seq<MetaId>,
    constraints: Seq<ConstraintView>,
    n: nat,
)
    requires
        present(h, changes),
        n <= changes.len(),
    ensures
        ({
            let g = imposed(h, changes, constraints, n);
            &&& g.metas.len() == h.metas.len()
            &&& g.binds == h.binds
            &&& forall|x: int|
                #![trigger g.metas[x]]
                0 <= x < h.metas.len() ==> {
                    &&& g.metas[x] == (MetaView {
                        constraints: g.metas[x].constraints,
                        ..h.metas[x]
                    })
                    &&& h.metas[x].constraints.is_prefix_of(g.metas[x].constraints)
                    &&& g.metas[x].constraints.len() == h.metas[x].constraints.len() + occurrences(
                        changes,
                        n,
                        x,
                    )
                }
        }),
    decreases n,
{
    if n > 0 {
        lemma_imposed(h, changes, constraints, (n - 1) as nat);
        assert(changes[n - 1] < h.metas.len());
    }
}

proof fn lemma_relieved(h: Heap, changes: Seq<MetaId>, n: nat)
    requires
        present(h, changes),
        n <= changes.len(),
        forall|x: int|
            0 <= x < h.metas.len() ==> occurrences(changes, n, x) <= (
            #[trigger] h.metas[x]).constraints.len(),
    ensures
        ({
            let g = relieved(h, changes, n);
            &&& g.metas.len() == h.metas.len()
            &&& g.binds == h.binds
            &&& forall|x: int|
                #![trigger g.metas[x]]
                0 <= x < h.metas.len() ==> g.metas[x] == (MetaView {
                    constraints: h.metas[x].constraints.take(
                        h.metas[x].constraints.len() - occurrences(changes, n, x),
                    ),
                    ..h.metas[x]
                })
        }),
    decreases n,
{
    if n == 0 {
        assert forall|x: int| 0 <= x < h.metas.len() implies #[trigger] h.metas[x].constraints
            =~= h.metas[x].constraints.take(h.metas[x].constraints.len() as int) by {}
    } else {
        lemma_relieved(h, changes, (n - 1) as nat);
        let g1 = relieved(h, changes, (n - 1) as nat);
        let g = relieved(h, changes, n);
        let m = changes[n - 1];
        assert(m < h.metas.len());
        assert(h.metas[m as int].constraints.len() >= occurrences(changes, n, m as int));
        assert forall|x: int|
            #![trigger g.metas[x]]
            0 <= x < h.metas.len() implies g.metas[x] == (MetaView {
            constraints: h.metas[x].constraints.take(
                h.metas[x].constraints.len() - occurrences(changes, n, x),
            ),
            ..h.metas[x]
        }) by {
            if x == m {
                assert(without_last(g1.metas[x].constraints) =~= h.metas[x].constraints.take(
                    h.metas[x].constraints.len() - occurrences(changes, n, x),
                ));
            } else {
                assert(g.metas[x] == g1.metas[x]);
            }
        }
    }
}

/// Unassigning a metavariable returns everything to the state before it was assigned: the
/// constraints that the assignment added are taken back, wherever they were added, and nothing
/// else is touched.
pub proof fn law_unassign_undoes_assign(
    h: Heap,
    m: MetaId,
    a: AssignmentView,
    constraints: Seq<ConstraintView>,
)
    requires
        open_meta(h, m),
        present(h, a.changes),
        constraints.len() == a.changes.len(),
    ensures
        ({
            let n = a.changes.len();
            let assigned = imposed(h, a.changes, constraints, n).with_assignment(m, Some(a));
            relieved(assigned.with_assignment(m, None), a.changes, n) == h
        }),
{
    let n = a.changes.len();
    let g = imposed(h, a.changes, constraints, n);
    lemma_imposed(h, a.changes, constraints, n);
    let back = g.with_assignment(m, Some(a)).with_assignment(m, None);
    assert(back.metas =~= g.metas);
    lemma_relieved(g, a.changes, n);
    let end = relieved(g, a.changes, n);
    assert forall|x: int| 0 <= x < h.metas.len() implies #[trigger] end.metas[x]
        == h.metas[x] by {
        assert(g.metas[x].constraints.take(h.metas[x].constraints.len() as int)
            =~= h.metas[x].constraints);
    }
    assert(end.metas =~= h.metas);
}

} // verus!
