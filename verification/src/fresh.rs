//! Reduction and propagation leave no identifier that is yet to be drawn.
use crate::constraint::{
    reduce_args, reduce_constraint, reduce_equation, Progress, LINK_LIMIT,
};
use crate::data::{
    ConstraintView, EntryView, EquationView, Head, MetaId, MetaView, NodeView, SubstView, TermView,
    TypeView, Var, WhnfView,
};
use crate::es::{appended, links, subst_entry, var_at, vars_entry};
use crate::ids::STRIDE;
use crate::index::Index;
use crate::memory::Heap;
use crate::meta::reduce_all;
use crate::propagation::law_equation_progresses;
use crate::search::{type_args, typed_entry};
use crate::settled::{
    all_drawn, drawn, drawn_constraint, drawn_node, lemma_drawn_by, lemma_drawn_later,
    lemma_es_drawn_later,
};
use crate::term::{
    arg_bindings, args_of, argument, has_arg, initial, offer, pattern_match, replaces, substituted,
    survivors, visit, whnf, Effects, MatchView, MatcherView, OfferView,
};
use crate::types::{has_type, part, tb_bindings, type_at};
use vstd::prelude::*;

verus! {

pub proof fn lemma_drawn_at(es: Seq<NodeView>, next: u64, i: int)
    requires
        drawn(es, next),
        0 <= i < es.len(),
    ensures
        drawn_node(es[i], next),
{
}

pub proof fn lemma_drawn_appended(es: Seq<NodeView>, node: NodeView, next: u64)
    requires
        drawn(es, next),
        drawn_node(node, next),
    ensures
        drawn(appended(es, node), next),
{
    let all = appended(es, node);
    assert forall|i: int| 0 <= i < all.len() implies drawn_node(#[trigger] all[i], next) by {
        if node.bindings.none() {
            lemma_drawn_at(es, next, i);
        } else if i > 0 {
            lemma_drawn_at(es, next, i - 1);
        }
    }
    lemma_drawn_by(all, next);
}

pub proof fn lemma_drawn_skip(es: Seq<NodeView>, d: int, next: u64)
    requires
        drawn(es, next),
        0 <= d <= es.len(),
    ensures
        drawn(es.skip(d), next),
{
    let rest = es.skip(d);
    assert forall|i: int| 0 <= i < rest.len() implies drawn_node(#[trigger] rest[i], next) by {
        lemma_drawn_at(es, next, d + i);
    }
    lemma_drawn_by(rest, next);
}

/// Whether all identifiers in the replacements of the matchers are below `next`.
pub open spec fn drawn_matchers(ms: Seq<MatcherView>, next: u64) -> bool {
    forall|i: int| 0 <= i < ms.len() ==> drawn((#[trigger] ms[i]).replacement.es, next)
}

pub proof fn lemma_matchers_later(ms: Seq<MatcherView>, next: u64, later: u64)
    requires
        drawn_matchers(ms, next),
        next <= later,
    ensures
        drawn_matchers(ms, later),
{
    assert forall|i: int| 0 <= i < ms.len() implies drawn(
        (#[trigger] ms[i]).replacement.es,
        later,
    ) by {
        lemma_es_drawn_later(ms[i].replacement.es, next, later);
    }
}

proof fn lemma_survivors_drawn(ms: Seq<MatcherView>, next: u64)
    requires
        drawn_matchers(ms, next),
    ensures
        drawn_matchers(survivors(ms), next),
    decreases ms.len(),
{
    if ms.len() > 0 {
        let rest = ms.drop_last();
        assert forall|i: int| 0 <= i < rest.len() implies drawn(
            (#[trigger] rest[i]).replacement.es,
            next,
        ) by {
            assert(rest[i] == ms[i]);
        }
        lemma_survivors_drawn(rest, next);
        assert(drawn(ms[ms.len() - 1].replacement.es, next));
    }
}

/// Whether all identifiers in what offering came to are below `next`.
pub open spec fn drawn_offer(o: OfferView, next: u64) -> bool {
    match o {
        OfferView::Found { term, .. } => drawn(term.es, next),
        OfferView::Open { patterns, recursive, .. } => drawn_matchers(patterns, next)
            && drawn_matchers(recursive, next),
    }
}

/// Whether all identifiers in what matching came to are below `next`.
pub open spec fn drawn_match(m: MatchView, next: u64) -> bool {
    match m {
        MatchView::Found { term, .. } => drawn(term.es, next),
        MatchView::Open { patterns, .. } => drawn_matchers(patterns, next),
    }
}

pub proof fn lemma_offer_drawn(
    h: Heap,
    t: TermView,
    var: Var,
    patterns: Seq<MatcherView>,
    recursive: Seq<MatcherView>,
    ordering: Option<Seq<usize>>,
    i: nat,
    e: Effects,
)
    requires
        drawn(t.es, e.next),
        drawn_matchers(patterns, e.next),
        drawn_matchers(recursive, e.next),
        i <= patterns.len(),
    ensures
        offer(h, t, var, patterns, recursive, ordering, i, e) matches Ok((o, e2)) ==> drawn_offer(
            o,
            e2.next,
        ) && e.next <= e2.next,
    decreases i,
{
    if i > 0 {
        let k = i - 1;
        let m = patterns[k];
        if m.more() {
            match m.front() {
                None => {
                    let ps = patterns.update(k, m.advanced());
                    assert(drawn_matchers(ps, e.next));
                    lemma_offer_drawn(h, t, var, ps, recursive, ordering, k as nat, e);
                },
                Some(symbol) => {
                    let ps = patterns.remove(k);
                    assert forall|j: int| 0 <= j < ps.len() implies drawn(
                        (#[trigger] ps[j]).replacement.es,
                        e.next,
                    ) by {
                        if j < k {
                            assert(ps[j] == patterns[j]);
                        } else {
                            assert(ps[j] == patterns[j + 1]);
                        }
                    }
                    if symbol.bind == var.bind {
                        if e.can_draw(2) {
                            let n = m.bound(h, t, symbol, e.next);
                            let e2 = e.plus(2, links(symbol.bindings));
                            let args = h.metas[t.base as int].assignment->0.args;
                            let node = NodeView {
                                entry: subst_entry(SubstView { args, es: t.es }, e.next),
                                bindings: symbol.bindings,
                            };
                            lemma_es_drawn_later(t.es, e.next, e2.next);
                            lemma_es_drawn_later(m.replacement.es, e.next, e2.next);
                            lemma_drawn_appended(m.replacement.es, node, e2.next);
                            lemma_matchers_later(ps, e.next, e2.next);
                            lemma_matchers_later(recursive, e.next, e2.next);
                            let more = recursive.push(n);
                            assert forall|j: int| 0 <= j < more.len() implies drawn(
                                (#[trigger] more[j]).replacement.es,
                                e2.next,
                            ) by {
                                if j < recursive.len() {
                                    assert(more[j] == recursive[j]);
                                }
                            }
                            lemma_offer_drawn(
                                h,
                                t,
                                var,
                                ps,
                                more,
                                Some(symbol.children),
                                k as nat,
                                e2,
                            );
                        }
                    } else {
                        lemma_offer_drawn(h, t, var, ps, recursive, ordering, k as nat, e);
                    }
                },
            }
        }
    }
}

pub proof fn lemma_visit_drawn(
    h: Heap,
    t: TermView,
    children: Seq<usize>,
    k: nat,
    patterns: Seq<MatcherView>,
    keeps: bool,
    can_stuck: bool,
    stuck: Option<MetaId>,
    fuel: nat,
    e: Effects,
)
    requires
        drawn(t.es, e.next),
        drawn_matchers(patterns, e.next),
    ensures
        visit(h, t, children, k, patterns, keeps, can_stuck, stuck, fuel, e) matches Ok((m, e2))
            ==> drawn_match(m, e2.next) && e.next <= e2.next,
    decreases fuel + 1, 0nat, children.len() - k,
{
    if k < children.len() && e.can_draw(2) {
        let i = children[k as int] as int;
        let entry = vars_entry(e.next, (e.next + STRIDE) as u64);
        if has_arg(h, t, i) {
            let bindings = arg_bindings(h, t, i);
            let e2 = e.plus(2, links(bindings));
            let arg = argument(h, t, i, entry);
            lemma_es_drawn_later(t.es, e.next, e2.next);
            lemma_drawn_appended(t.es, NodeView { entry, bindings }, e2.next);
            law_whnf_drawn(h, arg, true, keeps, fuel, e2);
            match whnf(h, arg, true, keeps, fuel, e2) {
                Err(_) => {},
                Ok((w, e3)) => {
                    lemma_matchers_later(patterns, e.next, e3.next);
                    lemma_match_drawn(h, w, patterns, keeps, can_stuck, stuck, fuel, e3);
                    match pattern_match(h, w, patterns, keeps, can_stuck, stuck, fuel, e3) {
                        Ok((MatchView::Open { patterns: left, stuck: s }, e4)) => {
                            if left.len() > 0 {
                                lemma_es_drawn_later(t.es, e.next, e4.next);
                                lemma_visit_drawn(
                                    h,
                                    t,
                                    children,
                                    k + 1,
                                    left,
                                    keeps,
                                    can_stuck,
                                    s,
                                    fuel,
                                    e4,
                                );
                            }
                        },
                        _ => {},
                    }
                },
            }
        }
    }
}

pub proof fn lemma_match_drawn(
    h: Heap,
    w: WhnfView,
    patterns: Seq<MatcherView>,
    keeps: bool,
    can_stuck: bool,
    stuck: Option<MetaId>,
    fuel: nat,
    e: Effects,
)
    requires
        drawn(w.term.es, e.next),
        drawn_matchers(patterns, e.next),
    ensures
        pattern_match(h, w, patterns, keeps, can_stuck, stuck, fuel, e) matches Ok((m, e2))
            ==> drawn_match(m, e2.next) && e.next <= e2.next,
    decreases fuel, 1nat, 0nat,
{
    if fuel > 0 {
        match w.head {
            Head::Meta(_) => {
                lemma_survivors_drawn(patterns, e.next);
            },
            Head::Var(var) => {
                if h.assigned(w.term.base) {
                    let none = Seq::<MatcherView>::empty();
                    lemma_offer_drawn(h, w.term, var, patterns, none, None, patterns.len(), e);
                    match offer(h, w.term, var, patterns, none, None, patterns.len(), e) {
                        Ok((OfferView::Open { patterns: left, recursive, ordering }, e2)) => {
                            let children = match ordering {
                                None => Seq::empty(),
                                Some(c) => c,
                            };
                            let less = (fuel - 1) as nat;
                            lemma_es_drawn_later(w.term.es, e.next, e2.next);
                            lemma_visit_drawn(
                                h,
                                w.term,
                                children,
                                0,
                                recursive,
                                keeps,
                                can_stuck,
                                stuck,
                                less,
                                e2,
                            );
                            match visit(
                                h,
                                w.term,
                                children,
                                0,
                                recursive,
                                keeps,
                                can_stuck,
                                stuck,
                                less,
                                e2,
                            ) {
                                Ok((MatchView::Open { patterns: more, .. }, e3)) => {
                                    lemma_matchers_later(left, e2.next, e3.next);
                                    let all = left + more;
                                    assert forall|i: int| 0 <= i < all.len() implies drawn(
                                        (#[trigger] all[i]).replacement.es,
                                        e3.next,
                                    ) by {
                                        if i < left.len() {
                                            assert(all[i] == left[i]);
                                        } else {
                                            assert(all[i] == more[i - left.len()]);
                                        }
                                    }
                                },
                                _ => {},
                            }
                        },
                        _ => {},
                    }
                }
            },
        }
    }
}

/// Reduction leaves no identifier that is yet to be drawn.
pub proof fn law_whnf_drawn(
    h: Heap,
    t: TermView,
    rules: bool,
    keeps: bool,
    fuel: nat,
    e: Effects,
)
    requires
        drawn(t.es, e.next),
    ensures
        whnf(h, t, rules, keeps, fuel, e) matches Ok((w, e2)) ==> drawn(w.term.es, e2.next)
            && e.next <= e2.next,
    decreases fuel, 0nat, 0nat,
{
    if fuel > 0 && h.assigned(t.base) {
        let a = h.metas[t.base as int].assignment->0;
        let d = a.head.0.0 as int;
        if d < t.es.len() {
            lemma_drawn_at(t.es, e.next, d);
            let node = t.es[d];
            match replaces(node, a.head.1) {
                Some((s, i)) => {
                    if i < s.args.len() && s.args[i] < h.metas.len() && e.can_draw(2) {
                        let bindings = h.metas[s.args[i] as int].bindings;
                        let entry = subst_entry(SubstView { args: a.args, es: t.es }, e.next);
                        let e2 = e.plus(2, links(bindings));
                        lemma_es_drawn_later(t.es, e.next, e2.next);
                        lemma_es_drawn_later(s.es, e.next, e2.next);
                        lemma_drawn_appended(s.es, NodeView { entry, bindings }, e2.next);
                        law_whnf_drawn(
                            h,
                            substituted(h, s, i, entry),
                            rules,
                            keeps,
                            (fuel - 1) as nat,
                            e2,
                        );
                    }
                },
                None => {
                    if node.bindings.has(a.head.1) && node.bindings.at(a.head.1) < h.binds.len()
                        && rules {
                        let var = var_at(node, a.head.1);
                        let bind = h.binds[var.bind as int];
                        let done = WhnfView { term: t, head: Head::Var(var) };
                        let start = initial(bind.rules, t.es.skip(d));
                        let can = h.metas[t.base as int].from_original_problem;
                        let less = (fuel - 1) as nat;
                        lemma_drawn_skip(t.es, d, e.next);
                        lemma_match_drawn(h, done, start, keeps, can, None, less, e);
                        match pattern_match(h, done, start, keeps, can, None, less, e) {
                            Ok((MatchView::Found { term, rule, .. }, e2)) => {
                                law_whnf_drawn(
                                    h,
                                    term,
                                    rules,
                                    keeps,
                                    less,
                                    e2.noting(keeps, rule),
                                );
                            },
                            Ok((_, e2)) => {
                                lemma_es_drawn_later(t.es, e.next, e2.next);
                            },
                            _ => {},
                        }
                    }
                },
            }
        }
    }
}

proof fn lemma_all_drawn_later(cs: Seq<ConstraintView>, next: u64, later: u64)
    requires
        all_drawn(cs, next),
        next <= later,
    ensures
        all_drawn(cs, later),
{
    assert forall|k: int| 0 <= k < cs.len() implies drawn_constraint(#[trigger] cs[k], later) by {
        lemma_drawn_later(cs[k], next, later);
    }
}

proof fn lemma_pushed_drawn(p: Progress, e: Effects, c: ConstraintView, m: MetaId)
    requires
        all_drawn(p.constraints, p.effects.next),
        p.effects.next <= e.next,
        drawn_constraint(c, e.next),
    ensures
        all_drawn(p.with(e).stuck(c, m).constraints, e.next),
{
    lemma_all_drawn_later(p.constraints, p.effects.next, e.next);
    let all = p.constraints.push(c);
    assert forall|k: int| 0 <= k < all.len() implies drawn_constraint(
        #[trigger] all[k],
        e.next,
    ) by {
        if k < p.constraints.len() {
            assert(all[k] == p.constraints[k]);
        }
    }
}

proof fn lemma_equation_drawn(h: Heap, q: EquationView, p: Progress, fuel: nat)
    requires
        drawn(q.premise.es, p.effects.next),
        drawn(q.goal.es, p.effects.next),
        all_drawn(p.constraints, p.effects.next),
    ensures
        reduce_equation(h, q, p, fuel) matches Ok((_, p2)) ==> all_drawn(
            p2.constraints,
            p2.effects.next,
        ),
    decreases fuel, 1nat, 0nat,
{
    if p.effects.links <= LINK_LIMIT && fuel > 0 {
        let less = (fuel - 1) as nat;
        law_whnf_drawn(h, q.premise, true, false, less, p.effects);
        match whnf(h, q.premise, true, false, less, p.effects) {
            Err(_) => {},
            Ok((premise, e)) => {
                lemma_es_drawn_later(q.goal.es, p.effects.next, e.next);
                match premise.head {
                    Head::Meta(lhs) => {
                        let c = EquationView { premise: premise.term, ..q };
                        lemma_pushed_drawn(p, e, ConstraintView::Equation(c), lhs);
                    },
                    Head::Var(_) => {
                        law_whnf_drawn(h, q.goal, true, false, less, e);
                        match whnf(h, q.goal, true, false, less, e) {
                            Err(_) => {},
                            Ok((goal, e2)) => {
                                lemma_es_drawn_later(premise.term.es, e.next, e2.next);
                                let sides = EquationView {
                                    premise: premise.term,
                                    goal: goal.term,
                                    ..q
                                };
                                match goal.head {
                                    Head::Meta(rhs) => {
                                        lemma_pushed_drawn(
                                            p,
                                            e2,
                                            ConstraintView::Equation(sides),
                                            rhs,
                                        );
                                    },
                                    Head::Var(_) => {
                                        lemma_all_drawn_later(
                                            p.constraints,
                                            p.effects.next,
                                            e2.next,
                                        );
                                        if e2.can_draw(1) {
                                            let e3 = e2.plus(1, 0);
                                            lemma_es_drawn_later(
                                                premise.term.es,
                                                e2.next,
                                                e3.next,
                                            );
                                            lemma_es_drawn_later(goal.term.es, e2.next, e3.next);
                                            lemma_all_drawn_later(
                                                p.constraints,
                                                e2.next,
                                                e3.next,
                                            );
                                            lemma_args_drawn(
                                                h,
                                                sides,
                                                e2.next,
                                                0,
                                                p.with(e3),
                                                less,
                                            );
                                        }
                                    },
                                }
                            },
                        }
                    },
                }
            },
        }
    }
}

proof fn lemma_args_drawn(
    h: Heap,
    q: EquationView,
    var_id: u64,
    i: nat,
    p: Progress,
    fuel: nat,
)
    requires
        var_id < p.effects.next,
        drawn(q.premise.es, p.effects.next),
        drawn(q.goal.es, p.effects.next),
        all_drawn(p.constraints, p.effects.next),
    ensures
        reduce_args(h, q, var_id, i, p, fuel) matches Ok((_, p2)) ==> all_drawn(
            p2.constraints,
            p2.effects.next,
        ),
    decreases fuel + 1, 0nat, args_of(h, q.premise.base).len() - i,
{
    let k = i as int;
    if i < args_of(h, q.premise.base).len() && has_arg(h, q.premise, k) && has_arg(h, q.goal, k)
        && p.effects.can_draw(2) {
        let left = vars_entry(var_id, p.effects.next);
        let right = vars_entry(var_id, (p.effects.next + STRIDE) as u64);
        let (x, y) = (arg_bindings(h, q.premise, k), arg_bindings(h, q.goal, k));
        let next = EquationView {
            premise: argument(h, q.premise, k, left),
            goal: argument(h, q.goal, k, right),
            ..q
        };
        let p1 = p.with(p.effects.plus(2, links(x) + links(y)));
        let n = p1.effects.next;
        lemma_es_drawn_later(q.premise.es, p.effects.next, n);
        lemma_es_drawn_later(q.goal.es, p.effects.next, n);
        lemma_drawn_appended(q.premise.es, NodeView { entry: left, bindings: x }, n);
        lemma_drawn_appended(q.goal.es, NodeView { entry: right, bindings: y }, n);
        lemma_all_drawn_later(p.constraints, p.effects.next, n);
        lemma_equation_drawn(h, next, p1, fuel);
        law_equation_progresses(h, next, p1, fuel);
        match reduce_equation(h, next, p1, fuel) {
            Ok((true, p2)) => {
                lemma_es_drawn_later(q.premise.es, n, p2.effects.next);
                lemma_es_drawn_later(q.goal.es, n, p2.effects.next);
                lemma_args_drawn(h, q, var_id, i + 1, p2, fuel);
            },
            _ => {},
        }
    }
}

/// Propagation leaves no identifier that is yet to be drawn.
pub proof fn law_all_drawn(h: Heap, cs: Seq<ConstraintView>, k: nat, p: Progress, fuel: nat)
    requires
        all_drawn(cs, p.effects.next),
        all_drawn(p.constraints, p.effects.next),
    ensures
        reduce_all(h, cs, k, p, fuel) matches Ok((_, p2)) ==> all_drawn(
            p2.constraints,
            p2.effects.next,
        ),
    decreases cs.len() - k,
{
    if k < cs.len() {
        let c = cs[k as int];
        assert(drawn_constraint(c, p.effects.next));
        match c {
            ConstraintView::Equation(q) => {
                lemma_equation_drawn(h, q, p, fuel);
                law_equation_progresses(h, q, p, fuel);
            },
            ConstraintView::Redex(r) => {
                match reduce_constraint(h, c, p, fuel) {
                    Ok((_, p2)) => {
                        if p2.constraints.len() > p.constraints.len() {
                            lemma_pushed_drawn(
                                p,
                                p.effects,
                                p2.constraints.last(),
                                p2.changes.last(),
                            );
                        }
                    },
                    Err(_) => {},
                }
            },
        }
        match reduce_constraint(h, c, p, fuel) {
            Ok((true, p2)) => {
                lemma_all_drawn_later(cs, p.effects.next, p2.effects.next);
                law_all_drawn(h, cs, k + 1, p2, fuel);
            },
            _ => {},
        }
    }
}

/// Whether all identifiers in what is known of the metavariable are below `next`.
pub open spec fn drawn_meta(m: MetaView, next: u64) -> bool {
    &&& drawn(m.gamma, next)
    &&& m.typ matches Some(t) ==> drawn(t.es, next)
    &&& all_drawn(m.constraints, next)
}

/// Whether all identifiers in the store are below `next`, and the lengths of redexes are numbers.
pub open spec fn drawn_heap(h: Heap, next: u64) -> bool {
    &&& forall|x: int| 0 <= x < h.metas.len() ==> drawn_meta(#[trigger] h.metas[x], next)
    &&& forall|b: int, i: int|
        #![trigger h.binds[b].redexes[i]]
        0 <= b < h.binds.len() && 0 <= i < h.binds[b].redexes.len()
            ==> h.binds[b].redexes[i].len() <= usize::MAX
}

pub proof fn lemma_heap_drawn_later(h: Heap, next: u64, later: u64)
    requires
        drawn_heap(h, next),
        next <= later,
    ensures
        drawn_heap(h, later),
{
    assert forall|x: int| 0 <= x < h.metas.len() implies drawn_meta(
        #[trigger] h.metas[x],
        later,
    ) by {
        let m = h.metas[x];
        assert(drawn_meta(m, next));
        lemma_es_drawn_later(m.gamma, next, later);
        if let Some(t) = m.typ {
            lemma_es_drawn_later(t.es, next, later);
        }
        lemma_all_drawn_later(m.constraints, next, later);
    }
}

/// The node before the parameter type of `t` at `index`.
spec fn node_at(h: Heap, t: TypeView, index: Index, entry: EntryView) -> NodeView {
    NodeView { entry, bindings: tb_bindings(h, *part(*t.base, index)->0) }
}

pub proof fn lemma_type_at_drawn(
    h: Heap,
    t: TypeView,
    index: Index,
    entry: EntryView,
    next: u64,
)
    requires
        drawn(t.es, next),
        entry.params_id < next,
        entry.lets_id < next,
        entry.subst matches Some(s) ==> drawn(s.es, next),
        entry.context is None,
    ensures
        drawn(type_at(h, t, index, entry).es, next),
{
    lemma_drawn_appended(t.es, node_at(h, t, index, entry), next);
}

/// Giving arguments their types leaves no identifier that is yet to be drawn.
pub proof fn lemma_type_args_drawn(
    h: Heap,
    var_type: TypeView,
    gamma: Seq<NodeView>,
    args: Seq<MetaId>,
    i: nat,
    next: u64,
)
    requires
        drawn_heap(h, next),
        drawn(var_type.es, next),
        drawn(gamma, next),
        forall|k: int| 0 <= k < args.len() ==> (#[trigger] args[k]) < h.metas.len(),
    ensures
        type_args(h, var_type, gamma, args, i, next) matches Ok((g, n)) ==> drawn_heap(g, n)
            && next <= n,
    decreases args.len() - i,
{
    let index = Index::Param(i as usize);
    if i < args.len() && has_type(h, var_type, index) && next + 2 * STRIDE <= u64::MAX {
        let later = (next + 2 * STRIDE) as u64;
        let m = h.metas[args[i as int] as int];
        let entry = vars_entry(next, (next + STRIDE) as u64);
        let typ = type_at(h, var_type, index, entry);
        let node = NodeView { entry: typed_entry(next, typ), bindings: m.bindings };
        lemma_heap_drawn_later(h, next, later);
        lemma_es_drawn_later(var_type.es, next, later);
        lemma_es_drawn_later(gamma, next, later);
        lemma_type_at_drawn(h, var_type, index, entry, later);
        lemma_drawn_appended(gamma, node, later);
        let meta = MetaView { gamma: appended(gamma, node), typ: Some(typ), ..m };
        let h2 = h.with_meta(args[i as int], meta);
        assert(drawn_heap(h2, later)) by {
            assert forall|x: int| 0 <= x < h2.metas.len() implies drawn_meta(
                #[trigger] h2.metas[x],
                later,
            ) by {
                assert(drawn_meta(h.metas[x], later));
            }
        }
        lemma_type_args_drawn(h2, var_type, gamma, args, i + 1, later);
    }
}

} // verus!
