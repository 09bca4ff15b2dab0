//! What is open in a term, what interacts with a metavariable, and what is rigid.
use crate::constraint::{constraint_fits, constraint_involved, fresh, is_rigid};
use crate::data::{ConstraintView, MetaId, NodeView, TermView, WhnfView};
use crate::es::{
    context_fits, context_involved, fits, gathered, node_fits, node_involved, picked, row_fits,
};
use crate::independence::{
    args_leaves, constraints_involved, flagged, involvable, involved, leaves, type_involved,
};
use crate::matching::normal_form;
use crate::memory::Heap;
use crate::stats::{any_rigid, meta_info, MetaStats};
use crate::term::{args_of, whnf};
use vstd::prelude::*;

verus! {

/// Whether `x` is an argument of what is assigned to `m`.
pub open spec fn argument_of(h: Heap, m: MetaId, x: MetaId) -> bool {
    &&& m < h.metas.len()
    &&& h.metas[m as int].assignment matches Some(a) && a.args.contains(x)
}

/// Whether each of `path` but the first is an argument of the one before it.
pub open spec fn descends(h: Heap, path: Seq<MetaId>) -> bool {
    forall|k: int| 0 <= k < path.len() - 1 ==> argument_of(h, #[trigger] path[k], path[k + 1])
}

/// Whether `x` is in the term of `m`: there is a path of arguments from `m` to `x`.
pub open spec fn inside(h: Heap, m: MetaId, x: MetaId) -> bool {
    exists|path: Seq<MetaId>| #[trigger]
        descends(h, path) && path.len() > 0 && path[0] == m && path.last() == x
}

proof fn lemma_leaves_inside(h: Heap, m: MetaId, x: MetaId)
    requires
        h.ordered(),
        m < h.metas.len(),
        leaves(h, m).contains(x),
    ensures
        inside(h, m, x),
        x < h.metas.len(),
        h.metas[x as int].assignment is None,
    decreases h.metas.len() - m, 1nat, 0nat,
{
    if h.assigned(m) {
        lemma_args_inside(h, m, args_of(h, m).len(), x);
    } else {
        let path = seq![m];
        assert(leaves(h, m) =~= seq![m]);
        assert(descends(h, path));
    }
}

proof fn lemma_args_inside(h: Heap, m: MetaId, k: nat, x: MetaId)
    requires
        h.ordered(),
        h.assigned(m),
        k <= args_of(h, m).len(),
        args_leaves(h, m, k).contains(x),
    ensures
        inside(h, m, x),
        x < h.metas.len(),
        h.metas[x as int].assignment is None,
    decreases h.metas.len() - m, 0nat, k,
{
    if k > 0 {
        let arg = args_of(h, m)[k - 1];
        let before = args_leaves(h, m, (k - 1) as nat);
        assert(m < h.metas[m as int].assignment->0.args[k - 1] < h.metas.len());
        let i = choose|i: int| 0 <= i < args_leaves(h, m, k).len() && args_leaves(h, m, k)[i] == x;
        if i < before.len() {
            assert(before[i] == x);
            lemma_args_inside(h, m, (k - 1) as nat, x);
        } else {
            assert(leaves(h, arg)[i - before.len()] == x);
            lemma_leaves_inside(h, arg, x);
            let path = choose|path: Seq<MetaId>| #[trigger]
                descends(h, path) && path.len() > 0 && path[0] == arg && path.last() == x;
            let longer = seq![m] + path;
            assert forall|q: int| 0 <= q < longer.len() - 1 implies argument_of(
                h,
                #[trigger] longer[q],
                longer[q + 1],
            ) by {
                if q == 0 {
                    assert(h.metas[m as int].assignment->0.args[k - 1] == arg);
                } else {
                    assert(longer[q] == path[q - 1] && longer[q + 1] == path[q]);
                }
            }
            assert(descends(h, longer));
            assert(longer.last() == x);
        }
    }
}

proof fn lemma_inside_leaves(h: Heap, path: Seq<MetaId>)
    requires
        h.ordered(),
        descends(h, path),
        path.len() > 0,
        path[0] < h.metas.len(),
        path.last() < h.metas.len(),
        h.metas[path.last() as int].assignment is None,
    ensures
        leaves(h, path[0]).contains(path.last()),
    decreases path.len(),
{
    let m = path[0];
    if path.len() == 1 {
        assert(leaves(h, m)[0] == m);
    } else {
        assert(argument_of(h, path[0], path[1]));
        let args = args_of(h, m);
        let k = choose|k: int| 0 <= k < args.len() && args[k] == path[1];
        assert(m < h.metas[m as int].assignment->0.args[k] < h.metas.len());
        let rest = path.skip(1);
        assert forall|q: int| 0 <= q < rest.len() - 1 implies argument_of(
            h,
            #[trigger] rest[q],
            rest[q + 1],
        ) by {
            assert(rest[q] == path[q + 1] && rest[q + 1] == path[q + 2]);
        }
        lemma_inside_leaves(h, rest);
        lemma_leaf_of_argument(h, m, args.len(), k, path.last());
    }
}

proof fn lemma_leaf_of_argument(h: Heap, m: MetaId, n: nat, k: int, x: MetaId)
    requires
        h.assigned(m),
        0 <= k < n <= args_of(h, m).len(),
        m < args_of(h, m)[k] < h.metas.len(),
        leaves(h, args_of(h, m)[k]).contains(x),
    ensures
        args_leaves(h, m, n).contains(x),
    decreases n,
{
    let before = args_leaves(h, m, (n - 1) as nat);
    let all = args_leaves(h, m, n);
    if k == n - 1 {
        let own = leaves(h, args_of(h, m)[k]);
        let i = choose|i: int| 0 <= i < own.len() && own[i] == x;
        assert(all[before.len() + i] == x);
    } else {
        lemma_leaf_of_argument(h, m, (n - 1) as nat, k, x);
        let i = choose|i: int| 0 <= i < before.len() && before[i] == x;
        assert(all[i] == x);
    }
}

/// The unassigned metavariables that are collected of a term are all that there are in it, however
/// deep they are, and no others.
pub proof fn law_leaves_exact(h: Heap, m: MetaId, x: MetaId)
    requires
        h.ordered(),
        m < h.metas.len(),
    ensures
        leaves(h, m).contains(x) <==> inside(h, m, x) && x < h.metas.len()
            && h.metas[x as int].assignment is None,
{
    if leaves(h, m).contains(x) {
        lemma_leaves_inside(h, m, x);
    }
    if inside(h, m, x) && x < h.metas.len() && h.metas[x as int].assignment is None {
        let path = choose|path: Seq<MetaId>| #[trigger]
            descends(h, path) && path.len() > 0 && path[0] == m && path.last() == x;
        lemma_inside_leaves(h, path);
    }
}

/// Whether `x` is substituted in `es` for a parameter that `rows` lists.
pub open spec fn picks(es: Seq<NodeView>, rows: Seq<Vec<usize>>, x: MetaId) -> bool {
    exists|k: int, j: int|
        0 <= k < es.len() && 0 <= j < rows[k]@.len() && (es[k].entry.subst matches Some(s)
            && s.args[#[trigger] rows[k]@[j] as int] == x)
}

proof fn lemma_gathered(es: Seq<NodeView>, rows: Seq<Vec<usize>>, n: int, x: MetaId)
    requires
        fits(es, rows),
        0 <= n <= es.len(),
    ensures
        gathered(es, rows, n).contains(x) <==> exists|k: int, j: int|
            0 <= k < n && 0 <= j < rows[k]@.len() && (es[k].entry.subst matches Some(s)
                && s.args[#[trigger] rows[k]@[j] as int] == x),
    decreases n,
{
    if n > 0 {
        lemma_gathered(es, rows, n - 1, x);
        let (a, b) = (gathered(es, rows, n - 1), picked(es, rows[n - 1]@, n - 1));
        let all = gathered(es, rows, n);
        assert(row_fits(es, rows[n - 1]@, n - 1));
        if all.contains(x) {
            let i = choose|i: int| 0 <= i < all.len() && all[i] == x;
            if i < a.len() {
                assert(a[i] == x);
            } else {
                let j = i - a.len();
                assert(b[j] == x);
                assert(es[n - 1].entry.subst->0.args[rows[n - 1]@[j] as int] == x);
            }
        }
        if exists|k: int, j: int|
            0 <= k < n && 0 <= j < rows[k]@.len() && (es[k].entry.subst matches Some(s)
                && s.args[#[trigger] rows[k]@[j] as int] == x) {
            let (k, j) = choose|k: int, j: int|
                0 <= k < n && 0 <= j < rows[k]@.len() && (es[k].entry.subst matches Some(s)
                    && s.args[#[trigger] rows[k]@[j] as int] == x);
            if k < n - 1 {
                assert(a.contains(x));
                let i = choose|i: int| 0 <= i < a.len() && a[i] == x;
                assert(all[i] == x);
            } else {
                assert(b[j] == x);
                assert(all[a.len() + j] == x);
            }
        }
    }
}

/// Whether `x` occurs in the type of a variable of the context.
pub open spec fn in_context(es: Seq<NodeView>, x: MetaId) -> bool {
    exists|d: int|
        0 <= d < es.len() && ((#[trigger] es[d]).entry.context matches Some(t) && picks(
            t.es,
            t.base.types_mvars@,
            x,
        ))
}

/// Whether `x` occurs in one of the types whose equality the constraint is about.
pub open spec fn in_constraint(c: ConstraintView, x: MetaId) -> bool {
    c matches ConstraintView::Equation(q) && (picks(
        q.goal_type.es,
        q.goal_type.base.codomain_mvars@,
        x,
    ) || picks(q.premise_type.es, q.premise_type.base.codomain_mvars@, x))
}

/// Whether `x` occurs in one of the constraints.
pub open spec fn in_constraints(cs: Seq<ConstraintView>, x: MetaId) -> bool {
    exists|k: int| 0 <= k < cs.len() && in_constraint(#[trigger] cs[k], x)
}

proof fn lemma_context(es: Seq<NodeView>, n: int, x: MetaId)
    requires
        context_fits(es),
        0 <= n <= es.len(),
    ensures
        context_involved(es, n).contains(x) <==> exists|d: int|
            0 <= d < n && ((#[trigger] es[d]).entry.context matches Some(t) && picks(
                t.es,
                t.base.types_mvars@,
                x,
            )),
    decreases n,
{
    if n > 0 {
        lemma_context(es, n - 1, x);
        let (a, b) = (context_involved(es, n - 1), node_involved(es[n - 1]));
        let all = context_involved(es, n);
        assert(node_fits(es[n - 1]));
        if let Some(t) = es[n - 1].entry.context {
            lemma_gathered(t.es, t.base.types_mvars@, t.es.len() as int, x);
        }
        lemma_joined(a, b, x);
    }
}

proof fn lemma_joined<T>(a: Seq<T>, b: Seq<T>, x: T)
    ensures
        (a + b).contains(x) <==> a.contains(x) || b.contains(x),
{
    if (a + b).contains(x) {
        let i = choose|i: int| 0 <= i < (a + b).len() && (a + b)[i] == x;
        if i < a.len() {
            assert(a[i] == x);
        } else {
            assert(b[i - a.len()] == x);
        }
    }
    if a.contains(x) {
        let i = choose|i: int| 0 <= i < a.len() && a[i] == x;
        assert((a + b)[i] == x);
    }
    if b.contains(x) {
        let i = choose|i: int| 0 <= i < b.len() && b[i] == x;
        assert((a + b)[a.len() + i] == x);
    }
}

proof fn lemma_constraint(c: ConstraintView, x: MetaId)
    requires
        constraint_fits(c),
    ensures
        constraint_involved(c).contains(x) <==> in_constraint(c, x),
{
    if let ConstraintView::Equation(q) = c {
        let (g, p) = (q.goal_type, q.premise_type);
        lemma_gathered(g.es, g.base.codomain_mvars@, g.es.len() as int, x);
        lemma_gathered(p.es, p.base.codomain_mvars@, p.es.len() as int, x);
        lemma_joined(
            gathered(g.es, g.base.codomain_mvars@, g.es.len() as int),
            gathered(p.es, p.base.codomain_mvars@, p.es.len() as int),
            x,
        );
    }
}

proof fn lemma_constraints(cs: Seq<ConstraintView>, n: int, x: MetaId)
    requires
        forall|k: int| 0 <= k < cs.len() ==> constraint_fits(#[trigger] cs[k]),
        0 <= n <= cs.len(),
    ensures
        constraints_involved(cs, n).contains(x) <==> exists|k: int|
            0 <= k < n && in_constraint(#[trigger] cs[k], x),
    decreases n,
{
    if n > 0 {
        lemma_constraints(cs, n - 1, x);
        assert(constraint_fits(cs[n - 1]));
        lemma_constraint(cs[n - 1], x);
        lemma_joined(constraints_involved(cs, n - 1), constraint_involved(cs[n - 1]), x);
    }
}

proof fn lemma_flagged(ms: Seq<MetaId>, flag: bool, x: MetaId, f: bool)
    ensures
        flagged(ms, flag).contains((x, f)) <==> f == flag && ms.contains(x),
{
    if flagged(ms, flag).contains((x, f)) {
        let i = choose|i: int| 0 <= i < ms.len() && flagged(ms, flag)[i] == (x, f);
        assert(ms[i] == x);
    }
    if f == flag && ms.contains(x) {
        let i = choose|i: int| 0 <= i < ms.len() && ms[i] == x;
        assert(flagged(ms, flag)[i] == (x, f));
    }
}

/// What a metavariable interacts with: with the flag, what occurs in its type; without it, what
/// occurs in the type of a variable of its context, or in a constraint on it. Nothing is left out.
pub proof fn law_involved_exact(h: Heap, m: MetaId, x: MetaId)
    requires
        involvable(h, m),
    ensures
        involved(h, m).contains((x, true)) <==> picks(
            h.metas[m as int].typ->0.es,
            h.metas[m as int].typ->0.base.codomain_mvars@,
            x,
        ),
        involved(h, m).contains((x, false)) <==> in_context(h.metas[m as int].gamma, x)
            || in_constraints(h.metas[m as int].constraints, x),
{
    let meta = h.metas[m as int];
    let t = meta.typ->0;
    let (a, b) = (
        context_involved(meta.gamma, meta.gamma.len() as int),
        constraints_involved(meta.constraints, meta.constraints.len() as int),
    );
    lemma_context(meta.gamma, meta.gamma.len() as int, x);
    lemma_constraints(meta.constraints, meta.constraints.len() as int, x);
    lemma_gathered(t.es, t.base.codomain_mvars@, t.es.len() as int, x);
    lemma_joined(a, b, x);
    lemma_flagged(a + b, false, x, true);
    lemma_flagged(a + b, false, x, false);
    lemma_flagged(type_involved(h, m), true, x, true);
    lemma_flagged(type_involved(h, m), true, x, false);
    lemma_joined(flagged(a + b, false), flagged(type_involved(h, m), true), (x, true));
    lemma_joined(flagged(a + b, false), flagged(type_involved(h, m), true), (x, false));
}

/// Whether the normal form of `t` has a variable at its head.
pub open spec fn shows_variable(h: Heap, t: TermView) -> bool {
    exists|w: WhnfView| #[trigger] normal_form(h, false, t, w) && w.head is Var
}

/// Whether the normal form of `t` is stuck on a metavariable.
pub open spec fn shows_stuck(h: Heap, t: TermView) -> bool {
    exists|w: WhnfView| #[trigger] normal_form(h, false, t, w) && w.head is Meta
}

/// Whether the constraint is an equation with a variable at the head of one of its sides.
pub open spec fn enforces(h: Heap, c: ConstraintView) -> bool {
    c matches ConstraintView::Equation(q) && (shows_variable(h, q.premise) || shows_variable(
        h,
        q.goal,
    ))
}

/// Whether the constraint is a redex, or an equation both sides of which are stuck.
pub open spec fn leaves_open(h: Heap, c: ConstraintView) -> bool {
    c matches ConstraintView::Equation(q) ==> shows_stuck(h, q.premise) && shows_stuck(h, q.goal)
}

/// A constraint that is rigid has a variable at the head of one of its sides. One that is not is a
/// redex, or both its sides are stuck.
pub proof fn law_rigid(h: Heap, c: ConstraintView, next: u64, fuel: nat)
    ensures
        is_rigid(h, c, next, fuel) matches Ok((true, _)) ==> enforces(h, c),
        is_rigid(h, c, next, fuel) matches Ok((false, _)) ==> leaves_open(h, c),
{
    if let ConstraintView::Equation(q) = c {
        match whnf(h, q.premise, true, false, fuel, fresh(next)) {
            Ok((w, e)) => {
                assert(normal_form(h, false, q.premise, w));
                match whnf(h, q.goal, true, false, fuel, fresh(e.next)) {
                    Ok((w2, _)) => {
                        assert(normal_form(h, false, q.goal, w2));
                    },
                    Err(_) => {},
                }
            },
            Err(_) => {},
        }
    }
}

proof fn lemma_any_rigid(h: Heap, cs: Seq<ConstraintView>, k: nat, next: u64, fuel: nat)
    ensures
        any_rigid(h, cs, k, next, fuel) matches Ok((true, _)) ==> exists|j: int|
            k <= j < cs.len() && enforces(h, #[trigger] cs[j]),
        any_rigid(h, cs, k, next, fuel) matches Ok((false, _)) ==> forall|j: int|
            k <= j < cs.len() ==> leaves_open(h, #[trigger] cs[j]),
    decreases cs.len() - k,
{
    if k < cs.len() {
        law_rigid(h, cs[k as int], next, fuel);
        match is_rigid(h, cs[k as int], next, fuel) {
            Ok((false, n)) => {
                lemma_any_rigid(h, cs, k + 1, n, fuel);
            },
            _ => {},
        }
    }
}

/// The information on a metavariable says that it has a rigid equation just where one of its
/// constraints has a variable at the head of one of its sides; otherwise both sides of each are
/// stuck. It is about that metavariable, and its statistics are those of its bin.
pub proof fn law_info_rigid(
    h: Heap,
    m: MetaId,
    stats: Map<u64, MetaStats>,
    fuel: nat,
    next: u64,
)
    ensures
        meta_info(h, m, stats, fuel, next) matches Ok((info, _)) ==> {
            let cs = h.metas[m as int].constraints;
            &&& info.meta == m
            &&& info.has_rigid_equation ==> exists|j: int|
                0 <= j < cs.len() && enforces(h, #[trigger] cs[j])
            &&& !info.has_rigid_equation ==> forall|j: int|
                0 <= j < cs.len() ==> leaves_open(h, #[trigger] cs[j])
            &&& h.metas[m as int].typ matches Some(t) && info.bin == t.base.key + if info.has_rigid_equation {
                1int
            } else {
                0
            }
            &&& stats.contains_key(info.bin) ==> info.current_stats == stats[info.bin]
        },
{
    lemma_any_rigid(h, h.metas[m as int].constraints, 0, next, fuel);
}

} // verus!
