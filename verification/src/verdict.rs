//! What the propagation of constraints decides: whether terms are equal, and whether redexes are
//! there.
use crate::backtrack::{in_order, law_solution_complete, lists_all_leaves, ProverView};
use crate::constraint::{
    ancestor, reduce_args, reduce_constraint, reduce_equation, walk, Progress, Walk, LINK_LIMIT,
};
use crate::data::{
    ConstraintView, EquationView, Head, Instruction, MetaId, NodeView, RedexView, TermView,
    TypeView,
};
use crate::equality::{
    absent, any, arguments, differ, differ_over, differ_under, entered, equal, equal_args,
    equal_over, equal_under, has_argument, law_equal_kept, law_equal_reduces, lemma_absent,
    lemma_head_kept, lemma_reaches_kept, reaches, same_variable,
};
use crate::es::{links, vars_entry};
use crate::fresh::{law_whnf_drawn, lemma_drawn_appended};
use crate::ids::{Fault, STRIDE};
use crate::memory::Heap;
use crate::meta::{obligations, occurs, reduce_all};
use crate::normal::open_meta;
use crate::propagation::{
    law_all_progress, law_equation_progresses, law_walk_stuck, lemma_args_progress, progresses,
};
use crate::settled::{
    all_drawn, apart, drawn, drawn_constraint, grows, lemma_drawn_later, lemma_es_drawn_later,
    lemma_occurs_assigned, made, nothing_open, recorded, tested, Step,
};
use crate::soundness::law_whnf_reaches;
use crate::term::{arg_bindings, args_of, argument, has_arg, whnf};
use vstd::prelude::*;

verus! {

/// Whether `x` is `n` parents above `m`.
pub open spec fn above(h: Heap, m: MetaId, n: nat, x: MetaId) -> bool {
    exists|line: Seq<MetaId>| #[trigger] climbs(h, line) && line.len() == n + 1 && line[0] == m
        && line[n as int] == x
}

/// Whether each of `line` but the last has the next as its parent.
pub open spec fn climbs(h: Heap, line: Seq<MetaId>) -> bool {
    forall|k: int|
        0 <= k < line.len() - 1 ==> (#[trigger] line[k]) < h.metas.len() && h.metas[line[k] as int].parent
            == Some(line[k + 1])
}

/// Whether `m` is assigned a variable with the given bind.
pub open spec fn bound_to(h: Heap, m: MetaId, bind: usize) -> bool {
    &&& m < h.metas.len()
    &&& h.metas[m as int].assignment matches Some(a) && a.bind == bind
}

/// Whether the instruction leads from `m`, which has its bind, to `m2`: to the child of the
/// metavariable that is as many parents above `m` as it says.
pub open spec fn leads(h: Heap, step: Instruction, m: MetaId, m2: MetaId) -> bool {
    &&& bound_to(h, m, step.bind)
    &&& exists|x: MetaId| #[trigger]
        above(h, m, step.parents as nat, x) && x < h.metas.len() && (
        h.metas[x as int].assignment matches Some(a) && step.child < a.args.len()
            && a.args[step.child as int] == m2)
}

/// Whether the instructions from the `i`th on lead along `path`.
pub open spec fn follows(
    h: Heap,
    instructions: Seq<Instruction>,
    i: int,
    path: Seq<MetaId>,
) -> bool {
    &&& path.len() > 0
    &&& i + path.len() <= instructions.len()
    &&& forall|k: int|
        0 <= k < path.len() - 1 ==> leads(
            h,
            instructions[i + k],
            #[trigger] path[k],
            path[k + 1],
        )
}

/// Whether the instructions from the `i`th on lead from `m` to a metavariable that is assigned
/// another variable than the one to be met there.
pub open spec fn avoided(h: Heap, instructions: Seq<Instruction>, i: int, m: MetaId) -> bool {
    exists|path: Seq<MetaId>| #[trigger]
        follows(h, instructions, i, path) && path[0] == m && path.last() < h.metas.len() && (
        h.metas[path.last() as int].assignment matches Some(a) && a.bind != instructions[i
            + path.len() - 1].bind)
}

/// Whether the variables of all instructions from the `i`th on are met, from `m` on.
pub open spec fn met_to_the_end(
    h: Heap,
    instructions: Seq<Instruction>,
    i: int,
    m: MetaId,
) -> bool {
    exists|path: Seq<MetaId>| #[trigger]
        follows(h, instructions, i, path) && path[0] == m && i + path.len() == instructions.len()
            && bound_to(h, path.last(), instructions.last().bind)
}

/// Whether the constraint is respected: the sides of an equation are equal, a redex is avoided.
pub open spec fn respected(h: Heap, c: ConstraintView, n: nat) -> bool {
    match c {
        ConstraintView::Equation(q) => equal(h, q.premise, q.goal, n),
        ConstraintView::Redex(r) => avoided(h, r.instructions, r.position as int, r.blame),
    }
}

/// Whether the constraint is violated: the sides of an equation differ, the whole redex is there.
pub open spec fn violated(h: Heap, c: ConstraintView, n: nat) -> bool {
    match c {
        ConstraintView::Equation(q) => differ(h, q.premise, q.goal, n),
        ConstraintView::Redex(r) => met_to_the_end(h, r.instructions, r.position as int, r.blame),
    }
}

/// Whether the constraints that were added to those of `p` are respected in `g`.
pub open spec fn additions_respected(g: Heap, p: Progress, p2: Progress, n: nat) -> bool {
    forall|k: int|
        p.constraints.len() <= k < p2.constraints.len() ==> respected(
            g,
            #[trigger] p2.constraints[k],
            n,
        )
}

/// An equation that is found to hold, but for equations that are left over, holds wherever those
/// do: its sides are equal, in all their arguments.
pub proof fn law_equation_equal(
    h: Heap,
    g: Heap,
    q: EquationView,
    p: Progress,
    fuel: nat,
    n: nat,
)
    requires
        grows(h, g),
        drawn(q.premise.es, p.effects.next),
        drawn(q.goal.es, p.effects.next),
        reduce_equation(h, q, p, fuel) matches Ok((true, p2)) && additions_respected(g, p, p2, n),
    ensures
        equal(g, q.premise, q.goal, fuel + n),
    decreases fuel, 1nat, 0nat,
{
    let p2 = (reduce_equation(h, q, p, fuel)->Ok_0).1;
    let less = (fuel - 1) as nat;
    let (w, e) = whnf(h, q.premise, true, false, less, p.effects)->Ok_0;
    law_whnf_reaches(h, q.premise, true, false, less, p.effects, less);
    law_whnf_drawn(h, q.premise, true, false, less, p.effects);
    lemma_reaches_kept(h, g, q.premise, w.term, less, less);
    lemma_es_drawn_later(q.goal.es, p.effects.next, e.next);
    assert(reaches(g, q.goal, q.goal, less));
    match w.head {
        Head::Meta(_) => {
            let c = ConstraintView::Equation(EquationView { premise: w.term, ..q });
            assert(p2.constraints[p.constraints.len() as int] == c);
            law_equal_reduces(g, q.premise, q.goal, w.term, q.goal, less, n);
            law_equal_kept(g, g, q.premise, q.goal, less + n, fuel + n);
        },
        Head::Var(_) => {
            let (z, e2) = whnf(h, q.goal, true, false, less, e)->Ok_0;
            law_whnf_reaches(h, q.goal, true, false, less, e, less);
            law_whnf_drawn(h, q.goal, true, false, less, e);
            lemma_reaches_kept(h, g, q.goal, z.term, less, less);
            lemma_es_drawn_later(w.term.es, e.next, e2.next);
            let sides = EquationView { premise: w.term, goal: z.term, ..q };
            match z.head {
                Head::Meta(_) => {
                    let c = ConstraintView::Equation(sides);
                    assert(p2.constraints[p.constraints.len() as int] == c);
                    law_equal_reduces(g, q.premise, q.goal, w.term, z.term, less, n);
                    law_equal_kept(g, g, q.premise, q.goal, less + n, fuel + n);
                },
                Head::Var(_) => {
                    let e3 = e2.plus(1, 0);
                    lemma_absent(e2.next, w.term.es, e2.next);
                    lemma_absent(e2.next, z.term.es, e2.next);
                    lemma_es_drawn_later(w.term.es, e2.next, e3.next);
                    lemma_es_drawn_later(z.term.es, e2.next, e3.next);
                    lemma_args_equal(h, g, sides, e2.next, 0, p.with(e3), less, n);
                    lemma_head_kept(h, g, w.term);
                    lemma_head_kept(h, g, z.term);
                    let m = (fuel + n - 1) as nat;
                    lemma_reaches_kept(g, g, q.premise, w.term, less, m);
                    lemma_reaches_kept(g, g, q.goal, z.term, less, m);
                    assert forall|i: int| #[trigger]
                        any(i) && 0 <= i < arguments(g, w.term).len() implies equal_args(
                        g,
                        w.term,
                        z.term,
                        i,
                        m,
                    ) by {}
                    assert(equal_over(g, q.premise, q.goal, w.term, z.term, m));
                    assert(any((w.term, z.term)));
                },
            }
        },
    }
}

proof fn lemma_has_argument(h: Heap, g: Heap, t: TermView, i: int)
    requires
        grows(h, g),
        has_arg(h, t, i),
    ensures
        has_argument(g, t, i),
        forall|x: u64, y: u64| #[trigger]
            entered(g, t, i, x, y) == argument(h, t, i, vars_entry(x, y)),
{
    assert(g.metas[t.base as int].bindings == h.metas[t.base as int].bindings);
    let m = args_of(h, t.base)[i] as int;
    assert(g.metas[m].bindings == h.metas[m].bindings);
}

proof fn lemma_args_equal(
    h: Heap,
    g: Heap,
    q: EquationView,
    id: u64,
    i: nat,
    p: Progress,
    fuel: nat,
    n: nat,
)
    requires
        grows(h, g),
        id < p.effects.next,
        absent(id, q.premise.es),
        absent(id, q.goal.es),
        drawn(q.premise.es, p.effects.next),
        drawn(q.goal.es, p.effects.next),
        reduce_args(h, q, id, i, p, fuel) matches Ok((true, p2)) && additions_respected(
            g,
            p,
            p2,
            n,
        ),
    ensures
        forall|k: int|
            i <= k < args_of(h, q.premise.base).len() ==> #[trigger] equal_args(
                g,
                q.premise,
                q.goal,
                k,
                fuel + n,
            ),
    decreases fuel + 1, 0nat, args_of(h, q.premise.base).len() - i,
{
    if i < args_of(h, q.premise.base).len() {
        let p3 = (reduce_args(h, q, id, i, p, fuel)->Ok_0).1;
        let k = i as int;
        let (x, y) = (p.effects.next, (p.effects.next + STRIDE) as u64);
        let (bx, by) = (arg_bindings(h, q.premise, k), arg_bindings(h, q.goal, k));
        let next = EquationView {
            premise: argument(h, q.premise, k, vars_entry(id, x)),
            goal: argument(h, q.goal, k, vars_entry(id, y)),
            ..q
        };
        let p1 = p.with(p.effects.plus(2, links(bx) + links(by)));
        let end = p1.effects.next;
        lemma_es_drawn_later(q.premise.es, p.effects.next, end);
        lemma_es_drawn_later(q.goal.es, p.effects.next, end);
        lemma_drawn_appended(
            q.premise.es,
            NodeView { entry: vars_entry(id, x), bindings: bx },
            end,
        );
        lemma_drawn_appended(q.goal.es, NodeView { entry: vars_entry(id, y), bindings: by }, end);
        let p2 = (reduce_equation(h, next, p1, fuel)->Ok_0).1;
        law_equation_progresses(h, next, p1, fuel);
        lemma_args_progress(h, q, id, i + 1, p2, fuel);
        assert(additions_respected(g, p1, p2, n)) by {
            assert forall|j: int|
                p1.constraints.len() <= j < p2.constraints.len() implies respected(
                g,
                #[trigger] p2.constraints[j],
                n,
            ) by {
                assert(p3.constraints[j] == p2.constraints[j]);
            }
        }
        law_equation_equal(h, g, next, p1, fuel, n);
        lemma_has_argument(h, g, q.premise, k);
        lemma_has_argument(h, g, q.goal, k);
        assert(entered(g, q.premise, k, id, x) == next.premise);
        assert(entered(g, q.goal, k, id, y) == next.goal);
        lemma_absent(x, q.premise.es, p.effects.next);
        lemma_absent(x, q.goal.es, p.effects.next);
        lemma_absent(y, q.premise.es, p.effects.next);
        lemma_absent(y, q.goal.es, p.effects.next);
        assert(equal_under(g, q.premise, q.goal, k, id, x, y, fuel + n));
        assert(any((id, x, y)));
        assert(equal_args(g, q.premise, q.goal, k, fuel + n));
        lemma_es_drawn_later(q.premise.es, end, p2.effects.next);
        lemma_es_drawn_later(q.goal.es, end, p2.effects.next);
        lemma_args_equal(h, g, q, id, i + 1, p2, fuel, n);
    }
}

/// An equation that is found to hold with nothing left over holds: both sides reduce to the same
/// variable, applied to arguments that are equal in the same sense.
pub proof fn law_equation_holds(h: Heap, q: EquationView, p: Progress, fuel: nat)
    requires
        drawn(q.premise.es, p.effects.next),
        drawn(q.goal.es, p.effects.next),
    ensures
        reduce_equation(h, q, p, fuel) matches Ok((true, p2)) ==> p2.constraints.len()
            == p.constraints.len() ==> equal(h, q.premise, q.goal, fuel),
{
    if let Ok((true, p2)) = reduce_equation(h, q, p, fuel) {
        if p2.constraints.len() == p.constraints.len() {
            assert(grows(h, h));
            law_equation_equal(h, h, q, p, fuel, 0);
        }
    }
}

/// An equation that is found to be violated does not hold: somewhere the two sides come to
/// different variables. The exception is where too many links have been made.
pub proof fn law_equation_violated(h: Heap, q: EquationView, p: Progress, fuel: nat)
    requires
        drawn(q.premise.es, p.effects.next),
        drawn(q.goal.es, p.effects.next),
    ensures
        reduce_equation(h, q, p, fuel) matches Ok((false, p2)) ==> p2.effects.links > LINK_LIMIT
            || differ(h, q.premise, q.goal, fuel),
    decreases fuel, 1nat, 0nat,
{
    if p.effects.links <= LINK_LIMIT && fuel > 0 && reduce_equation(h, q, p, fuel) matches Ok(
        (false, _),
    ) {
        let less = (fuel - 1) as nat;
        let (w, e) = whnf(h, q.premise, true, false, less, p.effects)->Ok_0;
        law_whnf_reaches(h, q.premise, true, false, less, p.effects, less);
        law_whnf_drawn(h, q.premise, true, false, less, p.effects);
        lemma_es_drawn_later(q.goal.es, p.effects.next, e.next);
        let (z, e2) = whnf(h, q.goal, true, false, less, e)->Ok_0;
        law_whnf_reaches(h, q.goal, true, false, less, e, less);
        law_whnf_drawn(h, q.goal, true, false, less, e);
        lemma_es_drawn_later(w.term.es, e.next, e2.next);
        if same_variable(h, w.term, z.term) {
            let sides = EquationView { premise: w.term, goal: z.term, ..q };
            let e3 = e2.plus(1, 0);
            lemma_absent(e2.next, w.term.es, e2.next);
            lemma_absent(e2.next, z.term.es, e2.next);
            lemma_es_drawn_later(w.term.es, e2.next, e3.next);
            lemma_es_drawn_later(z.term.es, e2.next, e3.next);
            lemma_args_violated(h, sides, e2.next, 0, p.with(e3), less);
        }
        let p2 = (reduce_equation(h, q, p, fuel)->Ok_0).1;
        if p2.effects.links <= LINK_LIMIT {
            assert(differ_over(h, q.premise, q.goal, w.term, z.term, less));
            assert(any((w.term, z.term)));
        }
    }
}

proof fn lemma_args_violated(
    h: Heap,
    q: EquationView,
    id: u64,
    i: nat,
    p: Progress,
    fuel: nat,
)
    requires
        id < p.effects.next,
        absent(id, q.premise.es),
        absent(id, q.goal.es),
        drawn(q.premise.es, p.effects.next),
        drawn(q.goal.es, p.effects.next),
    ensures
        reduce_args(h, q, id, i, p, fuel) matches Ok((false, p2)) ==> p2.effects.links > LINK_LIMIT
            || exists|k: int, v: u64, x: u64, y: u64| #[trigger]
            any((k, v, x, y)) && differ_under(h, q.premise, q.goal, k, v, x, y, fuel),
    decreases fuel + 1, 0nat, args_of(h, q.premise.base).len() - i,
{
    let k = i as int;
    if i < args_of(h, q.premise.base).len() && has_arg(h, q.premise, k) && has_arg(h, q.goal, k)
        && p.effects.can_draw(2) {
        let (x, y) = (p.effects.next, (p.effects.next + STRIDE) as u64);
        let (bx, by) = (arg_bindings(h, q.premise, k), arg_bindings(h, q.goal, k));
        let next = EquationView {
            premise: argument(h, q.premise, k, vars_entry(id, x)),
            goal: argument(h, q.goal, k, vars_entry(id, y)),
            ..q
        };
        let p1 = p.with(p.effects.plus(2, links(bx) + links(by)));
        let end = p1.effects.next;
        lemma_es_drawn_later(q.premise.es, p.effects.next, end);
        lemma_es_drawn_later(q.goal.es, p.effects.next, end);
        lemma_drawn_appended(
            q.premise.es,
            NodeView { entry: vars_entry(id, x), bindings: bx },
            end,
        );
        lemma_drawn_appended(q.goal.es, NodeView { entry: vars_entry(id, y), bindings: by }, end);
        law_equation_violated(h, next, p1, fuel);
        law_equation_progresses(h, next, p1, fuel);
        match reduce_equation(h, next, p1, fuel) {
            Ok((true, p2)) => {
                lemma_es_drawn_later(q.premise.es, end, p2.effects.next);
                lemma_es_drawn_later(q.goal.es, end, p2.effects.next);
                lemma_args_violated(h, q, id, i + 1, p2, fuel);
            },
            Ok((false, p2)) => {
                if p2.effects.links <= LINK_LIMIT {
                    assert(grows(h, h));
                    lemma_has_argument(h, h, q.premise, k);
                    lemma_has_argument(h, h, q.goal, k);
                    assert(entered(h, q.premise, k, id, x) == next.premise);
                    assert(entered(h, q.goal, k, id, y) == next.goal);
                    lemma_absent(x, q.premise.es, p.effects.next);
                    lemma_absent(x, q.goal.es, p.effects.next);
                    lemma_absent(y, q.premise.es, p.effects.next);
                    lemma_absent(y, q.goal.es, p.effects.next);
                    assert(differ_under(h, q.premise, q.goal, k, id, x, y, fuel));
                    assert(any((k, id, x, y)));
                }
            },
            Err(_) => {},
        }
    }
}

proof fn lemma_ancestor(h: Heap, g: Heap, m: MetaId, n: nat)
    requires
        grows(h, g),
    ensures
        ancestor(h, m, n) matches Some(x) ==> above(g, m, n, x),
    decreases n,
{
    if n == 0 {
        let line = seq![m];
        assert(climbs(g, line));
        assert(above(g, m, 0, m));
    } else if m < h.metas.len() {
        if let Some(p) = h.metas[m as int].parent {
            lemma_ancestor(h, g, p, (n - 1) as nat);
            if let Some(x) = ancestor(h, m, n) {
                let rest = choose|line: Seq<MetaId>| #[trigger]
                    climbs(g, line) && line.len() == n && line[0] == p && line[n - 1] == x;
                let line = seq![m] + rest;
                assert(g.metas[m as int].parent == Some(p));
                assert forall|k: int| 0 <= k < line.len() - 1 implies (#[trigger] line[k])
                    < g.metas.len() && g.metas[line[k] as int].parent == Some(line[k + 1]) by {
                    if k > 0 {
                        assert(line[k] == rest[k - 1]);
                        assert(line[k + 1] == rest[k]);
                    }
                }
                assert(climbs(g, line));
                assert(line[n as int] == x);
            }
        }
    }
}

proof fn lemma_path_longer(
    g: Heap,
    instructions: Seq<Instruction>,
    i: int,
    m: MetaId,
    path: Seq<MetaId>,
)
    requires
        0 <= i,
        follows(g, instructions, i + 1, path),
        leads(g, instructions[i], m, path[0]),
    ensures
        follows(g, instructions, i, seq![m] + path),
{
    let longer = seq![m] + path;
    assert forall|k: int| 0 <= k < longer.len() - 1 implies leads(
        g,
        instructions[i + k],
        #[trigger] longer[k],
        longer[k + 1],
    ) by {
        if k > 0 {
            assert(longer[k] == path[k - 1]);
            assert(longer[k + 1] == path[k]);
            assert(leads(g, instructions[i + 1 + (k - 1)], path[k - 1], path[k]));
        }
    }
}

/// What following a redex came to: it differs where another variable is met, it is complete where
/// all variables are met, and where it was stuck it differs if it does from there on.
pub proof fn law_walk(
    h: Heap,
    g: Heap,
    instructions: Seq<Instruction>,
    i: nat,
    blame: MetaId,
)
    requires
        grows(h, g),
    ensures
        match walk(h, instructions, i, blame) {
            Err(_) => true,
            Ok(Walk::Differs) => avoided(g, instructions, i as int, blame),
            Ok(Walk::Complete) => met_to_the_end(g, instructions, i as int, blame),
            Ok(Walk::Stuck(k, m)) => {
                &&& avoided(g, instructions, k as int, m) ==> avoided(
                    g,
                    instructions,
                    i as int,
                    blame,
                )
                &&& met_to_the_end(g, instructions, k as int, m) ==> met_to_the_end(
                    g,
                    instructions,
                    i as int,
                    blame,
                )
            },
        },
    decreases instructions.len() - i,
{
    if h.assigned(blame) && i < instructions.len() {
        let a = h.metas[blame as int].assignment->0;
        assert(g.metas[blame as int].bindings == h.metas[blame as int].bindings);
        let step = instructions[i as int];
        let here = seq![blame];
        assert(follows(g, instructions, i as int, here));
        if a.bind == step.bind && i < instructions.len() - 1 {
            lemma_ancestor(h, g, blame, step.parents as nat);
            if let Some(x) = ancestor(h, blame, step.parents as nat) {
                if h.assigned(x) && step.child < args_of(h, x).len() {
                    assert(g.metas[x as int].bindings == h.metas[x as int].bindings);
                    let next = args_of(h, x)[step.child as int];
                    assert(leads(g, step, blame, next)) by {
                        assert(above(g, blame, step.parents as nat, x));
                    }
                    law_walk(h, g, instructions, i + 1, next);
                    if avoided(g, instructions, i as int + 1, next) {
                        let path = choose|path: Seq<MetaId>| #[trigger]
                            follows(g, instructions, i as int + 1, path) && path[0] == next
                                && path.last() < g.metas.len() && (
                            g.metas[path.last() as int].assignment matches Some(z) && z.bind
                                != instructions[i + 1 + path.len() - 1].bind);
                        lemma_path_longer(g, instructions, i as int, blame, path);
                        let longer = seq![blame] + path;
                        assert(longer.last() == path.last());
                        assert(avoided(g, instructions, i as int, blame));
                    }
                    if met_to_the_end(g, instructions, i as int + 1, next) {
                        let path = choose|path: Seq<MetaId>| #[trigger]
                            follows(g, instructions, i as int + 1, path) && path[0] == next && i + 1
                                + path.len() == instructions.len() && bound_to(
                                g,
                                path.last(),
                                instructions.last().bind,
                            );
                        lemma_path_longer(g, instructions, i as int, blame, path);
                        let longer = seq![blame] + path;
                        assert(longer.last() == path.last());
                        assert(met_to_the_end(g, instructions, i as int, blame));
                    }
                }
            }
        }
    }
}

/// A constraint that is found to hold, but for constraints that are left over, is respected
/// wherever those are.
pub proof fn law_constraint_respected(
    h: Heap,
    g: Heap,
    c: ConstraintView,
    p: Progress,
    fuel: nat,
    n: nat,
)
    requires
        grows(h, g),
        drawn_constraint(c, p.effects.next),
        reduce_constraint(h, c, p, fuel) matches Ok((true, p2)) && additions_respected(
            g,
            p,
            p2,
            n,
        ),
    ensures
        respected(g, c, fuel + n),
{
    let p2 = (reduce_constraint(h, c, p, fuel)->Ok_0).1;
    match c {
        ConstraintView::Equation(q) => {
            law_equation_equal(h, g, q, p, fuel, n);
        },
        ConstraintView::Redex(r) => {
            law_walk(h, g, r.instructions, r.position as nat, r.blame);
            law_walk_stuck(h, r.instructions, r.position as nat, r.blame);
            if let Ok(Walk::Stuck(k, m)) = walk(h, r.instructions, r.position as nat, r.blame) {
                let left = RedexView { position: k as usize, blame: m, ..r };
                assert(p2.constraints[p.constraints.len() as int] == ConstraintView::Redex(left));
                assert(respected(g, p2.constraints[p.constraints.len() as int], n));
            }
        },
    }
}

/// A constraint that is found to be violated is violated, unless too many links have been made.
pub proof fn law_constraint_violated(h: Heap, c: ConstraintView, p: Progress, fuel: nat)
    requires
        drawn_constraint(c, p.effects.next),
    ensures
        reduce_constraint(h, c, p, fuel) matches Ok((false, p2)) ==> p2.effects.links > LINK_LIMIT
            || violated(h, c, fuel),
{
    match c {
        ConstraintView::Equation(q) => {
            law_equation_violated(h, q, p, fuel);
        },
        ConstraintView::Redex(r) => {
            assert(grows(h, h));
            law_walk(h, h, r.instructions, r.position as nat, r.blame);
        },
    }
}

proof fn lemma_respected_deeper(g: Heap, c: ConstraintView, n: nat, k: nat)
    requires
        respected(g, c, n),
        n <= k,
    ensures
        respected(g, c, k),
{
    if let ConstraintView::Equation(q) = c {
        assert(grows(g, g));
        law_equal_kept(g, g, q.premise, q.goal, n, k);
    }
}

/// Whether the constraint is respected, at some depth.
pub open spec fn observed(g: Heap, c: ConstraintView) -> bool {
    exists|n: nat| #[trigger] respected(g, c, n)
}

proof fn lemma_common_depth(g: Heap, cs: Seq<ConstraintView>, k: nat) -> (n: nat)
    requires
        k <= cs.len(),
        forall|i: int| 0 <= i < k ==> observed(g, #[trigger] cs[i]),
    ensures
        forall|i: int| 0 <= i < k ==> respected(g, #[trigger] cs[i], n),
    decreases k,
{
    if k == 0 {
        0
    } else {
        let a = lemma_common_depth(g, cs, (k - 1) as nat);
        assert(observed(g, cs[k - 1]));
        let b = choose|b: nat| #[trigger] respected(g, cs[k - 1], b);
        let n = a + b;
        assert forall|i: int| 0 <= i < k implies respected(g, #[trigger] cs[i], n) by {
            if i < k - 1 {
                lemma_respected_deeper(g, cs[i], a, n);
            } else {
                lemma_respected_deeper(g, cs[i], b, n);
            }
        }
        n
    }
}

proof fn lemma_all_respected(
    h: Heap,
    g: Heap,
    cs: Seq<ConstraintView>,
    k: nat,
    p: Progress,
    fuel: nat,
    n: nat,
    j: int,
)
    requires
        grows(h, g),
        all_drawn(cs, p.effects.next),
        reduce_all(h, cs, k, p, fuel) matches Ok((true, p2)) && additions_respected(g, p, p2, n),
        k <= j < cs.len(),
    ensures
        respected(g, cs[j], fuel + n),
    decreases cs.len() - k,
{
    let p3 = (reduce_all(h, cs, k, p, fuel)->Ok_0).1;
    let c = cs[k as int];
    let p2 = (reduce_constraint(h, c, p, fuel)->Ok_0).1;
    law_all_progress(h, seq![c], 0, p, fuel);
    assert(seq![c][0] == c);
    assert(reduce_all(h, seq![c], 1, p2, fuel) == Ok::<(bool, Progress), Fault>((true, p2)));
    assert(reduce_all(h, seq![c], 0, p, fuel) == Ok::<(bool, Progress), Fault>((true, p2)));
    law_all_progress(h, cs, k + 1, p2, fuel);
    if j == k {
        assert(additions_respected(g, p, p2, n)) by {
            assert forall|i: int| p.constraints.len() <= i < p2.constraints.len() implies respected(
                g,
                #[trigger] p2.constraints[i],
                n,
            ) by {
                assert(p3.constraints[i] == p2.constraints[i]);
            }
        }
        law_constraint_respected(h, g, c, p, fuel, n);
    } else {
        assert forall|i: int| 0 <= i < cs.len() implies drawn_constraint(
            #[trigger] cs[i],
            p2.effects.next,
        ) by {
            lemma_drawn_later(cs[i], p.effects.next, p2.effects.next);
        }
        lemma_all_respected(h, g, cs, k + 1, p2, fuel, n, j);
    }
}

/// Where every metavariable that a constraint was left on has been assigned, everything that the
/// assignments had to respect is respected: the types are equal, and all constraints that were
/// imposed on the way are met.
pub proof fn law_steps_observed(start: Heap, g: Heap, steps: Seq<Step>, i: int, j: int)
    requires
        recorded(start, g, steps),
        nothing_open(g, steps),
        0 <= i < steps.len(),
        0 <= j < obligations(g, steps[i].meta).len(),
    ensures
        observed(g, obligations(g, steps[i].meta)[j]),
    decreases steps.len() - i,
{
    let m = steps[i].meta;
    let t = steps[i].trial;
    let p = t.left(m);
    let first = Progress {
        constraints: Seq::empty(),
        changes: Seq::empty(),
        effects: t.effects,
    };
    assert(tested(g, m, t));
    law_all_progress(t.heap, obligations(t.heap, m), 0, first, t.fuel);
    assert(progresses(t.heap, first, p));
    assert forall|k: int| 0 <= k < p.constraints.len() implies observed(
        g,
        #[trigger] p.constraints[k],
    ) by {
        let y = p.changes[k];
        assert(t.left(m).changes[k] == y);
        assert(g.assigned(y));
        assert(open_meta(t.heap, y));
        if start.assigned(y) {
            assert(grows(start, t.heap));
            assert(t.heap.metas[y as int].parent == start.metas[y as int].parent);
        }
        assert(made(steps, y));
        let n = choose|n: int| 0 <= n < steps.len() && (#[trigger] steps[n]).meta == y;
        if n <= i {
            assert(apart(steps[i], steps[n]));
        }
        let cs = g.metas[y as int].constraints;
        assert(cs.contains(p.constraints[k]));
        let at = choose|at: int| 0 <= at < cs.len() && cs[at] == p.constraints[k];
        let all = obligations(g, y);
        let last = all.len() - cs.len() + at;
        assert(all[last] == cs[at]);
        law_steps_observed(start, g, steps, n, last);
    }
    let n = lemma_common_depth(g, p.constraints, p.constraints.len());
    lemma_all_respected(t.heap, g, obligations(t.heap, m), 0, first, t.fuel, n, j);
    assert(respected(g, obligations(g, m)[j], t.fuel + n));
}

/// Where propagating constraints finds that one is violated, one of them is, unless too many links
/// have been made.
pub proof fn law_all_violated(
    h: Heap,
    cs: Seq<ConstraintView>,
    k: nat,
    p: Progress,
    fuel: nat,
)
    requires
        all_drawn(cs, p.effects.next),
    ensures
        reduce_all(h, cs, k, p, fuel) matches Ok((false, p2)) ==> p2.effects.links > LINK_LIMIT
            || exists|j: int| k <= j < cs.len() && violated(h, #[trigger] cs[j], fuel),
    decreases cs.len() - k,
{
    if k < cs.len() {
        let c = cs[k as int];
        law_constraint_violated(h, c, p, fuel);
        match reduce_constraint(h, c, p, fuel) {
            Ok((true, p2)) => {
                law_all_progress(h, seq![c], 0, p, fuel);
                assert(seq![c][0] == c);
                assert(reduce_all(h, seq![c], 1, p2, fuel) == Ok::<(bool, Progress), Fault>(
                    (true, p2),
                ));
                assert(reduce_all(h, seq![c], 0, p, fuel) == Ok::<(bool, Progress), Fault>(
                    (true, p2),
                ));
                assert forall|i: int| 0 <= i < cs.len() implies drawn_constraint(
                    #[trigger] cs[i],
                    p2.effects.next,
                ) by {
                    lemma_drawn_later(cs[i], p.effects.next, p2.effects.next);
                }
                law_all_violated(h, cs, k + 1, p2, fuel);
            },
            _ => {},
        }
    }
}

/// Whether the return types of `a` and `b` are equal, in all their arguments.
pub open spec fn equal_types(g: Heap, a: TypeView, b: TypeView) -> bool {
    exists|n: nat| #[trigger]
        equal(
            g,
            TermView { base: a.base.codomain, es: a.es },
            TermView { base: b.base.codomain, es: b.es },
            n,
        )
}

/// A solution is well typed: the type of the variable that is assigned to a metavariable of the
/// term is equal to the type of the metavariable, in all its arguments; every redex that the
/// variable must not be the head of is avoided; and every constraint that was imposed on the way is
/// respected. The constraints were left on metavariables of the term.
pub proof fn law_solution_typed(
    start: Heap,
    h: Heap,
    p: ProverView,
    steps: Seq<Step>,
    x: MetaId,
    j: int,
)
    requires
        in_order(h, p),
        lists_all_leaves(p, None),
        p.frames.len() == 0,
        recorded(start, h, steps),
        forall|i: int, k: int|
            #![trigger steps[i].trial.left(steps[i].meta).changes[k]]
            0 <= i < steps.len() && 0 <= k < steps[i].trial.left(steps[i].meta).changes.len()
                ==> occurs(h, p.meta, steps[i].trial.left(steps[i].meta).changes[k] as int),
        occurs(h, p.meta, x as int),
        !start.assigned(x),
    ensures
        h.assigned(x),
        h.metas[x as int].assignment->0.var_type is Some && h.metas[x as int].typ is Some
            ==> equal_types(
            h,
            h.metas[x as int].assignment->0.var_type->0,
            h.metas[x as int].typ->0,
        ),
        ({
            let redexes = h.binds[h.metas[x as int].assignment->0.bind as int].redexes;
            0 <= j < redexes.len() ==> avoided(h, redexes[j], 0, x)
        }),
        0 <= j < h.metas[x as int].constraints.len() ==> observed(
            h,
            h.metas[x as int].constraints[j],
        ),
{
    law_solution_complete(h, p);
    assert forall|i: int, k: int|
        #![trigger steps[i].trial.left(steps[i].meta).changes[k]]
        0 <= i < steps.len() && 0 <= k
            < steps[i].trial.left(steps[i].meta).changes.len() implies h.assigned(
        steps[i].trial.left(steps[i].meta).changes[k],
    ) by {
        lemma_occurs_assigned(h, p.meta, steps[i].trial.left(steps[i].meta).changes[k]);
    }
    lemma_occurs_assigned(h, p.meta, x);
    assert(made(steps, x));
    let i = choose|i: int| 0 <= i < steps.len() && (#[trigger] steps[i]).meta == x;
    let all = obligations(h, x);
    law_steps_observed(start, h, steps, i, 0);
    let n = choose|n: nat| #[trigger] respected(h, all[0], n);
    let (a, b) = (h.metas[x as int].assignment->0.var_type->0, h.metas[x as int].typ->0);
    assert(equal(
        h,
        TermView { base: a.base.codomain, es: a.es },
        TermView { base: b.base.codomain, es: b.es },
        n,
    ));
    let redexes = h.binds[h.metas[x as int].assignment->0.bind as int].redexes;
    if 0 <= j < redexes.len() {
        law_steps_observed(start, h, steps, i, j + 1);
        let k = choose|k: nat| #[trigger] respected(h, all[j + 1], k);
        assert(all[j + 1] == crate::meta::redex_constraints(h, redexes, x)[j]);
        assert(respected(h, all[j + 1], k));
    }
    let cs = h.metas[x as int].constraints;
    if 0 <= j < cs.len() {
        let at = all.len() - cs.len() + j;
        assert(all[at] == cs[j]);
        law_steps_observed(start, h, steps, i, at);
    }
}

} // verus!
