//! What a candidate for a metavariable is, and why a variable is rejected.
use crate::constraint::{fresh, Progress, LINK_LIMIT};
use crate::data::{
    AssignmentView, EntryView, MetaId, MetaView, NodeView, TermView, TypeBase, TypeView,
};
use crate::equality::{binding, differ, head_of, put, reaches, unbound};
use crate::fresh::{drawn_heap, drawn_meta, law_whnf_drawn};
use crate::ids::{Fault, STRIDE};
use crate::index::{DeBruijnIndex, Index, Slots};
use crate::memory::Heap;
use crate::meta::{obligations, reduce_all, redex_constraints};
use crate::normal::{law_whnf_normal, open_meta};
use crate::search::{
    applicable, applied_type, arity, attempt, lemma_type_args_kept, links_at, part_at, proposed,
    type_args, with_args,
};
use crate::settled::{drawn_constraint, drawn_node, lemma_drawn_later, lemma_es_drawn_later};
use crate::soundness::law_whnf_reaches;
use crate::steps::lemma_applied_drawn;
use crate::term::{whnf, Effects};
use crate::types::{codomain, positions, type_at};
use crate::verdict::{law_all_violated, met_to_the_end, violated};
use std::rc::Rc;
use vstd::prelude::*;

verus! {

/// What is known of the type of the parameter or let declaration at `index`.
pub open spec fn declared(tb: TypeBase, index: Index) -> Option<Rc<TypeBase>> {
    match index {
        Index::Param(i) => tb.types.params@[i as int],
        Index::Let(i) => tb.types.lets@[i as int],
    }
}

/// The bind of the parameter or let declaration at `index`.
pub open spec fn bind_at(bindings: Slots<usize>, index: Index) -> usize {
    match index {
        Index::Param(i) => bindings.params[i as int],
        Index::Let(i) => bindings.lets[i as int],
    }
}

/// What a term of the given type binds.
pub open spec fn bindings_of(h: Heap, tb: TypeBase) -> Slots<usize> {
    h.metas[tb.codomain as int].bindings
}

/// Whether `v` is the type of the variable `head`, which is declared in the context `ctx`, applied
/// to `args` in the context of `m`.
pub open spec fn type_applied(
    h: Heap,
    ctx: TypeView,
    head: DeBruijnIndex,
    m: MetaId,
    args: Seq<MetaId>,
    v: TypeView,
) -> bool {
    &&& declared(*ctx.base, head.1) == Some(v.base)
    &&& v.bind == bind_at(bindings_of(h, *ctx.base), head.1)
    &&& exists|x: u64, y: u64|
        x != y && v.es == put(
            ctx.es,
            #[trigger] binding(bindings_of(h, *v.base), args, h.metas[m as int].gamma, x, y),
        )
}

/// Whether `meta` stands for the `i`th argument of a variable of type `v` that is assigned to `m`:
/// its type is that of the `i`th parameter, and it is in the context of `m` and of the variables
/// that its type binds.
pub open spec fn stands_for(h: Heap, v: TypeView, m: MetaId, i: int, meta: MetaView) -> bool {
    &&& v.base.types.params@[i] matches Some(p)
    &&& meta.assignment is None
    &&& meta.constraints.len() == 0
    &&& meta.parent == Some(m)
    &&& meta.bindings == bindings_of(h, *p)
    &&& meta.typ matches Some(t) && t.base == p && t.bind == bindings_of(h, *v.base).params[i]
        && exists|x: u64, y: u64| #[trigger] typed_in(h, v, m, *p, t, meta.gamma, x, y)
}

/// Whether `t` is the type `p` under the arguments of `v`, and `gamma` is the context of `m` with
/// the variables that the type binds, under the identifiers `x` and `y`.
pub open spec fn typed_in(
    h: Heap,
    v: TypeView,
    m: MetaId,
    p: TypeBase,
    t: TypeView,
    gamma: Seq<NodeView>,
    x: u64,
    y: u64,
) -> bool {
    &&& x != y
    &&& t.es == put(v.es, unbound(bindings_of(h, p), x, y))
    &&& gamma == put(
        h.metas[m as int].gamma,
        NodeView {
            entry: EntryView { params_id: x, lets_id: y, subst: None, context: Some(t) },
            bindings: bindings_of(h, p),
        },
    )
}

/// Whether `c` applies the variable `head`, which is declared in `node`, to new metavariables, one
/// for each parameter of its type.
pub open spec fn applies(
    h: Heap,
    g: Heap,
    head: DeBruijnIndex,
    node: NodeView,
    m: MetaId,
    c: AssignmentView,
) -> bool {
    &&& c.head == head
    &&& node.entry.context matches Some(ctx)
    &&& c.var_type matches Some(v) && type_applied(h, ctx, head, m, c.args, v) && c.bind == v.bind
        && c.args.len() == v.base.types.params@.len() && g.metas.len() == h.metas.len()
        + c.args.len() && forall|i: int|
        0 <= i < c.args.len() ==> (#[trigger] c.args[i]) == h.metas.len() + i && stands_for(
            h,
            v,
            m,
            i,
            g.metas[c.args[i] as int],
        )
}

proof fn lemma_typed(
    h0: Heap,
    h: Heap,
    v: TypeView,
    gamma: Seq<NodeView>,
    m: MetaId,
    len: nat,
    n: nat,
    i: nat,
    next: u64,
    g: Heap,
    last: u64,
)
    requires
        type_args(h, v, gamma, positions(len, n), i, next) == Ok::<(Heap, u64), Fault>((g, last)),
        len + n <= usize::MAX,
        h.metas.len() == len + n,
        h0.metas.len() == len,
        n == v.base.types.params@.len(),
        gamma == h0.metas[m as int].gamma,
        v.base.codomain < len,
        forall|x: int| 0 <= x < len ==> (#[trigger] h.metas[x]).bindings == h0.metas[x].bindings,
        forall|k: int|
            0 <= k < n ==> (#[trigger] v.base.types.params@[k]) is Some
                && v.base.types.params@[k]->0.codomain < len,
        forall|k: int|
            0 <= k < n ==> {
                let x = #[trigger] h.metas[len + k];
                &&& x.assignment is None
                &&& x.constraints.len() == 0
                &&& x.parent == Some(m)
                &&& x.bindings == bindings_of(h0, *v.base.types.params@[k]->0)
            },
    ensures
        forall|x: int|
            len + i <= x < len + n ==> stands_for(h0, v, m, x - len, #[trigger] g.metas[x]),
    decreases n - i,
{
    let args = positions(len, n);
    if i < n {
        assert(args[i as int] == len + i);
        let at = (len + i) as int;
        let old = h.metas[at];
        let (x, y) = (next, (next + STRIDE) as u64);
        let typ = type_at(h, v, Index::Param(i as usize), crate::es::vars_entry(x, y));
        let node = NodeView {
            entry: crate::search::typed_entry(next, typ),
            bindings: old.bindings,
        };
        let meta = MetaView {
            gamma: crate::es::appended(gamma, node),
            typ: Some(typ),
            ..old
        };
        let h2 = h.with_meta(args[i as int], meta);
        let later = (next + 2 * STRIDE) as u64;
        assert(v.base.types.params@[i as int] is Some);
        assert(h.metas[len + i as int] == old);
        assert(h.metas[v.base.codomain as int].bindings
            == h0.metas[v.base.codomain as int].bindings);
        lemma_part(h0, h, v, m, i, x, y, gamma);
        assert forall|k: int| 0 <= k < n implies ({
            let z = #[trigger] h2.metas[len + k];
            &&& z.assignment is None
            &&& z.constraints.len() == 0
            &&& z.parent == Some(m)
            &&& z.bindings == bindings_of(h0, *v.base.types.params@[k]->0)
        }) by {
            assert(h.metas[len + k].parent == Some(m));
        }
        assert forall|z: int| 0 <= z < len implies (#[trigger] h2.metas[z]).bindings
            == h0.metas[z].bindings by {
            assert(h.metas[z].bindings == h0.metas[z].bindings);
        }
        lemma_typed(h0, h2, v, gamma, m, len, n, i + 1, later, g, last);
        lemma_type_args_kept(h2, v, gamma, len, n, i + 1, later);
        if let Ok((g2, _)) = type_args(h2, v, gamma, args, i + 1, later) {
            assert(g2 == g);
            assert(g2.metas[at] == h2.metas[at]);
        }
        assert(g.metas[at] == meta);
        assert forall|q: int| len + i <= q < len + n implies stands_for(
            h0,
            v,
            m,
            q - len,
            #[trigger] g.metas[q],
        ) by {
            let k = q - len;
            if k == i {
                assert(typed_in(
                    h0,
                    v,
                    m,
                    *v.base.types.params@[k]->0,
                    typ,
                    meta.gamma,
                    x,
                    y,
                ));
            }
        }
    }
}

/// The type of the `i`th parameter, and the context of the metavariable for it.
proof fn lemma_part(
    h0: Heap,
    h: Heap,
    v: TypeView,
    m: MetaId,
    i: nat,
    x: u64,
    y: u64,
    gamma: Seq<NodeView>,
)
    requires
        i < v.base.types.params@.len() <= usize::MAX,
        v.base.types.params@[i as int] is Some,
        v.base.types.params@[i as int]->0.codomain < h0.metas.len() <= h.metas.len(),
        v.base.codomain < h0.metas.len(),
        forall|z: int|
            0 <= z < h0.metas.len() ==> (#[trigger] h.metas[z]).bindings == h0.metas[z].bindings,
    ensures
        ({
            let p = v.base.types.params@[i as int]->0;
            let t = type_at(h, v, Index::Param(i as usize), crate::es::vars_entry(x, y));
            &&& t.base == p
            &&& t.es == put(v.es, unbound(bindings_of(h0, *p), x, y))
            &&& t.bind == bindings_of(h0, *v.base).params[i as int]
        }),
{
    let c = v.base.types.params@[i as int]->0.codomain as int;
    assert(h.metas[c].bindings == h0.metas[c].bindings);
    assert(h.metas[v.base.codomain as int].bindings == h0.metas[v.base.codomain as int].bindings);
}

/// A candidate applies the variable to new metavariables: one for each parameter of its type, with
/// the type of that parameter under the other arguments, in the context of `m` and of the variables
/// that this type binds. Nothing else is added.
pub proof fn law_candidate_applies(
    h: Heap,
    head: DeBruijnIndex,
    node: NodeView,
    m: MetaId,
    fuel: nat,
    next: u64,
)
    requires
        open_meta(h, m),
        h.metas.len() + arity(node, head.1) <= usize::MAX,
    ensures
        attempt(h, head, node, m, fuel, next) matches Ok((Some(Some(c)), g, _)) ==> applies(
            h,
            g,
            head,
            node,
            m,
            c.assignment,
        ),
{
    if attempt(h, head, node, m, fuel, next) matches Ok((Some(Some(_)), _, _)) {
        crate::steps::lemma_trial(h, head, node, m, fuel, next);
        let (o, g, _) = attempt(h, head, node, m, fuel, next)->Ok_0;
        let c = (o->0->0).assignment;
        let ctx = node.entry.context->0;
        let v = applied_type(h, ctx, head.1, m, next);
        let h1 = with_args(h, ctx, head.1, m);
        let t = crate::steps::trial_of(h, head, node, m, fuel, next);
        crate::search::law_test_frame(h, head, node, m, fuel, next);
        lemma_applied(h, ctx, head, m, next);
        let n = v.base.types.params@.len();
        assert(c.args == positions(h.metas.len(), n));
        lemma_added(h, ctx, head, m, v);
        let last = (attempt(h, head, node, m, fuel, next)->Ok_0).2;
        lemma_typed(
            h,
            h1,
            v,
            h.metas[m as int].gamma,
            m,
            h.metas.len(),
            n,
            0,
            t.left(m).effects.next,
            g,
            last,
        );
        assert forall|i: int| 0 <= i < c.args.len() implies (#[trigger] c.args[i])
            == h.metas.len() + i && stands_for(h, v, m, i, g.metas[c.args[i] as int]) by {
            assert(c.args[i] == h.metas.len() + i);
            let q = h.metas.len() + i;
            assert(0 <= i < n);
            assert(stands_for(h, v, m, q - h.metas.len(), g.metas[q]));
        }
        assert(c.head == head);
    }
}

proof fn lemma_applied(h: Heap, ctx: TypeView, head: DeBruijnIndex, m: MetaId, next: u64)
    requires
        applicable(h, ctx, head.1, m),
        next + 2 * STRIDE <= u64::MAX,
    ensures
        ({
            let v = applied_type(h, ctx, head.1, m, next);
            let args = positions(h.metas.len(), v.base.types.params@.len());
            type_applied(h, ctx, head, m, args, v)
        }),
{
    let v = applied_type(h, ctx, head.1, m, next);
    let args = positions(h.metas.len(), v.base.types.params@.len());
    let (x, y) = (next, (next + STRIDE) as u64);
    assert(v.es == put(
        ctx.es,
        binding(bindings_of(h, *v.base), args, h.metas[m as int].gamma, x, y),
    ));
}

proof fn lemma_added(h: Heap, ctx: TypeView, head: DeBruijnIndex, m: MetaId, v: TypeView)
    requires
        applicable(h, ctx, head.1, m),
        part_at(ctx, head.1) == Some(v.base),
    ensures
        ({
            let h1 = with_args(h, ctx, head.1, m);
            let n = v.base.types.params@.len();
            &&& h1.metas.len() == h.metas.len() + n
            &&& h1.binds == h.binds
            &&& v.base.codomain < h.metas.len()
            &&& forall|x: int| 0 <= x < h.metas.len() ==> (#[trigger] h1.metas[x]) == h.metas[x]
            &&& forall|k: int|
                0 <= k < n ==> (#[trigger] v.base.types.params@[k]) is Some
                    && v.base.types.params@[k]->0.codomain < h.metas.len()
            &&& forall|k: int|
                0 <= k < n ==> {
                    let x = #[trigger] h1.metas[h.metas.len() + k];
                    &&& x.assignment is None
                    &&& x.constraints.len() == 0
                    &&& x.parent == Some(m)
                    &&& x.bindings == bindings_of(h, *v.base.types.params@[k]->0)
                }
        }),
{
}

/// Whether `t` is `h` with the variable `head`, which is declared in `node`, assigned to `m`, and
/// new metavariables for its arguments.
pub open spec fn tentative(
    h: Heap,
    t: Heap,
    head: DeBruijnIndex,
    node: NodeView,
    m: MetaId,
) -> bool {
    &&& h.metas.len() <= t.metas.len()
    &&& t.binds == h.binds
    &&& forall|x: int|
        0 <= x < h.metas.len() && x != m ==> (#[trigger] t.metas[x]) == h.metas[x]
    &&& t.metas[m as int] == (MetaView {
        assignment: t.metas[m as int].assignment,
        ..h.metas[m as int]
    })
    &&& t.metas[m as int].assignment matches Some(a)
    &&& a.head == head
    &&& a.args == Seq::new(
        (t.metas.len() - h.metas.len()) as nat,
        |i: int| (h.metas.len() + i) as usize,
    )
    &&& a.var_type matches Some(v)
    &&& a.bind == v.bind
    &&& v.base.types.params@.len() == a.args.len()
    &&& node.entry.context matches Some(ctx)
    &&& type_applied(h, ctx, head, m, a.args, v)
}

/// Whether the assignment made to `m` violates something: the types differ, a redex is there that
/// the variable must not be the head of, or a constraint on `m` is violated.
pub open spec fn offends(t: Heap, m: MetaId, n: nat) -> bool {
    let a = t.metas[m as int].assignment->0;
    let (v, goal) = (a.var_type->0, t.metas[m as int].typ->0);
    ||| differ(
        t,
        TermView { base: v.base.codomain, es: v.es },
        TermView { base: goal.base.codomain, es: goal.es },
        n,
    )
    ||| exists|i: int|
        0 <= i < t.binds[a.bind as int].redexes.len() && met_to_the_end(
            t,
            #[trigger] t.binds[a.bind as int].redexes[i],
            0,
            m,
        )
    ||| exists|j: int|
        0 <= j < t.metas[m as int].constraints.len() && violated(
            t,
            #[trigger] t.metas[m as int].constraints[j],
            n,
        )
}

/// Whether the test of the assignment made to `m` was given up because too many links were made.
pub open spec fn overgrown(t: Heap, m: MetaId, fuel: nat) -> bool {
    exists|first: Progress|
        first.constraints.len() == 0 && first.changes.len() == 0 && (#[trigger] reduce_all(
            t,
            obligations(t, m),
            0,
            first,
            fuel,
        ) matches Ok((false, p)) && p.effects.links > LINK_LIMIT)
}

/// A variable is rejected only if assigning it violates something: its type differs from that of
/// the metavariable, a redex is made, or a constraint on the metavariable is violated. The
/// exception is a test in which too many links are made.
pub proof fn law_rejected(
    h: Heap,
    head: DeBruijnIndex,
    node: NodeView,
    m: MetaId,
    fuel: nat,
    next: u64,
)
    requires
        open_meta(h, m),
        drawn_heap(h, next),
        drawn_node(node, next),
        h.metas.len() + arity(node, head.1) <= usize::MAX,
    ensures
        attempt(h, head, node, m, fuel, next) matches Ok((Some(None), _, _)) ==> exists|t: Heap|
            #[trigger]
            tentative(h, t, head, node, m) && (offends(t, m, fuel) || overgrown(t, m, fuel)),
{
    if attempt(h, head, node, m, fuel, next) matches Ok((Some(None), _, _)) {
        reveal(attempt);
        let ctx = node.entry.context->0;
        let h1 = with_args(h, ctx, head.1, m);
        let v = applied_type(h, ctx, head.1, m, next);
        let later = (next + 2 * STRIDE) as u64;
        let (w, e) = whnf(h1, codomain(v), true, false, fuel, fresh(later))->Ok_0;
        let a = proposed(h, head, v, w.head is Var);
        let t = h1.with_assignment(m, Some(a));
        lemma_added(h, ctx, head, m, v);
        lemma_applied(h, ctx, head, m, next);
        assert(h1.metas[m as int] == h.metas[m as int]);
        assert(a.args =~= Seq::new(
            (t.metas.len() - h.metas.len()) as nat,
            |i: int| (h.metas.len() + i) as usize,
        ));
        assert(tentative(h, t, head, node, m));
        let start = Effects {
            next: e.next,
            links: links_at(h, ctx, head.1),
            noted: Seq::empty(),
        };
        let first = Progress {
            constraints: Seq::empty(),
            changes: Seq::empty(),
            effects: start,
        };
        let all = obligations(t, m);
        // all identifiers have been drawn
        let gamma = h.metas[m as int].gamma;
        assert(drawn_meta(h.metas[m as int], next));
        lemma_es_drawn_later(ctx.es, next, later);
        lemma_es_drawn_later(gamma, next, later);
        lemma_applied_drawn(h, ctx, head.1, m, next);
        law_whnf_drawn(h1, codomain(v), true, false, fuel, fresh(later));
        lemma_es_drawn_later(v.es, later, e.next);
        let goal = h.metas[m as int].typ->0;
        lemma_es_drawn_later(goal.es, next, e.next);
        let redexes = h.binds[a.bind as int].redexes;
        let cs = h.metas[m as int].constraints;
        assert forall|k: int| 0 <= k < all.len() implies drawn_constraint(
            #[trigger] all[k],
            e.next,
        ) by {
            if k > 0 && k <= redexes.len() {
                assert(h.binds[a.bind as int].redexes[k - 1].len() <= usize::MAX);
                assert(all[k] == redex_constraints(t, redexes, m)[k - 1]);
            } else if k > 0 {
                let c = cs[k - 1 - redexes.len()];
                assert(all[k] == c);
                lemma_drawn_later(c, next, e.next);
            }
        }
        law_all_violated(t, all, 0, first, fuel);
        let p = (reduce_all(t, all, 0, first, fuel)->Ok_0).1;
        if p.effects.links > LINK_LIMIT {
            assert(overgrown(t, m, fuel));
        } else {
            let k = choose|k: int| 0 <= k < all.len() && violated(t, #[trigger] all[k], fuel);
            if k > 0 && k <= redexes.len() {
                assert(all[k] == redex_constraints(t, redexes, m)[k - 1]);
                assert(met_to_the_end(t, t.binds[a.bind as int].redexes[k - 1], 0, m));
            } else if k > 0 {
                let j = k - 1 - redexes.len();
                assert(all[k] == t.metas[m as int].constraints[j]);
            }
            assert(offends(t, m, fuel));
        }
    }
}

/// A variable is tested just where its type is known, whether it is a parameter or a let
/// declaration. One that is not tested leaves everything as it is.
pub proof fn law_tested(
    h: Heap,
    head: DeBruijnIndex,
    node: NodeView,
    m: MetaId,
    fuel: nat,
    next: u64,
)
    ensures
        attempt(h, head, node, m, fuel, next) matches Ok((o, g, n)) ==> {
            &&& o is None <==> (node.entry.context matches Some(ctx) ==> declared(
                *ctx.base,
                head.1,
            ) is None)
            &&& o is None ==> g == h && n == next
        },
{
    reveal(attempt);
    if let Some(ctx) = node.entry.context {
        assert(part_at(ctx, head.1) == declared(*ctx.base, head.1));
    }
}

/// Whether `g` is `h` with further metavariables, which are unassigned.
pub open spec fn widened(h: Heap, g: Heap) -> bool {
    &&& g.binds == h.binds
    &&& h.metas.len() <= g.metas.len()
    &&& forall|x: int| 0 <= x < h.metas.len() ==> #[trigger] g.metas[x] == h.metas[x]
    &&& forall|x: int|
        h.metas.len() <= x < g.metas.len() ==> (#[trigger] g.metas[x]).assignment is None
}

/// Whether the type `v` reduces to one with a variable at its head, or if it is not `rigid`, to one
/// with a metavariable at its head or in the way of the rules of the variable there.
pub open spec fn comes_rigid(g: Heap, v: TypeView, rigid: bool) -> bool {
    exists|u: TermView, n: nat| #[trigger]
        reaches(g, TermView { base: v.base.codomain, es: v.es }, u, n) && if rigid {
            head_of(g, u) is Some
        } else {
            g.metas[u.base as int].assignment is Some ==> (head_of(g, u) matches Some(x)
                && g.binds[x.bind as int].rules.len() > 0)
        }
}

proof fn lemma_stuck_by_rules(h: Heap, t: TermView, fuel: nat, e: Effects)
    ensures
        whnf(h, t, true, false, fuel, e) matches Ok((w, _)) ==> (w.head is Meta && h.assigned(
            w.term.base,
        ) ==> (head_of(h, w.term) matches Some(x) && h.binds[x.bind as int].rules.len() > 0)),
    decreases fuel,
{
    if fuel > 0 && h.assigned(t.base) {
        let a = h.metas[t.base as int].assignment->0;
        if a.head.0.0 < t.es.len() {
            let node = t.es[a.head.0.0 as int];
            let less = (fuel - 1) as nat;
            match crate::term::replaces(node, a.head.1) {
                Some((s, i)) => {
                    let entry = crate::es::subst_entry(
                        crate::data::SubstView { args: a.args, es: t.es },
                        e.next,
                    );
                    lemma_stuck_by_rules(
                        h,
                        crate::term::substituted(h, s, i, entry),
                        less,
                        e.plus(2, crate::es::links(h.metas[s.args[i] as int].bindings)),
                    );
                },
                None => {
                    let var = crate::es::var_at(node, a.head.1);
                    let bind = h.binds[var.bind as int];
                    if bind.rules.len() > 0 {
                        let done = crate::data::WhnfView {
                            term: t,
                            head: crate::data::Head::Var(var),
                        };
                        if let Ok((crate::term::MatchView::Found { term, rule, .. }, e2)) =
                            crate::term::pattern_match(
                            h,
                            done,
                            crate::term::initial(bind.rules, t.es.skip(a.head.0.0 as int)),
                            false,
                            h.metas[t.base as int].from_original_problem,
                            None,
                            less,
                            e,
                        ) {
                            lemma_stuck_by_rules(h, term, less, e2.noting(false, rule));
                        }
                    }
                },
            }
        }
    }
}

/// A candidate is said to have a rigid type only if the type of the variable, applied to the new
/// metavariables, reduces to a type with a variable at its head, and not to have one only if that
/// is stuck.
pub proof fn law_rigid_type(
    h: Heap,
    head: DeBruijnIndex,
    node: NodeView,
    m: MetaId,
    fuel: nat,
    next: u64,
)
    requires
        open_meta(h, m),
        drawn_heap(h, next),
        drawn_node(node, next),
        h.metas.len() + arity(node, head.1) <= usize::MAX,
    ensures
        attempt(h, head, node, m, fuel, next) matches Ok((Some(Some(c)), _, _)) ==> exists|g: Heap|
            #[trigger]
            widened(h, g) && comes_rigid(
                g,
                c.assignment.var_type->0,
                c.assignment.has_rigid_type,
            ),
{
    if attempt(h, head, node, m, fuel, next) matches Ok((Some(Some(_)), _, _)) {
        reveal(attempt);
        let (o, _, _) = attempt(h, head, node, m, fuel, next)->Ok_0;
        let c = (o->0->0).assignment;
        let ctx = node.entry.context->0;
        let h1 = with_args(h, ctx, head.1, m);
        let v = applied_type(h, ctx, head.1, m, next);
        let later = (next + 2 * STRIDE) as u64;
        let e = fresh(later);
        assert(drawn_meta(h.metas[m as int], next));
        lemma_es_drawn_later(ctx.es, next, later);
        lemma_es_drawn_later(h.metas[m as int].gamma, next, later);
        lemma_applied_drawn(h, ctx, head.1, m, next);
        lemma_stuck_by_rules(h1, codomain(v), fuel, e);
        law_whnf_reaches(h1, codomain(v), true, false, fuel, e, fuel);
        law_whnf_normal(h1, codomain(v), true, false, fuel, e);
        let (w, _) = whnf(h1, codomain(v), true, false, fuel, e)->Ok_0;
        crate::soundness::lemma_head_var(h1, w.term);
        assert(c.var_type == Some(v));
        assert(c.has_rigid_type == (w.head is Var));
        lemma_added(h, ctx, head, m, v);
        assert(widened(h, h1));
        assert(reaches(h1, TermView { base: v.base.codomain, es: v.es }, w.term, fuel));
        assert(comes_rigid(h1, v, c.has_rigid_type));
    }
}

} // verus!
