//! Reductions that differ in their identifiers only.
use crate::data::{Head, MetaId, NodeView, SubstView, TermView, Var, WhnfView};
use crate::es::{appended, links, subst_entry, var_at, vars_entry};
use crate::ids::{Fault, STRIDE};
use crate::memory::Heap;
use crate::normal::law_whnf_deeper;
use crate::term::{
    arg_bindings, argument, has_arg, initial, offer, pattern_match, replaces, substituted,
    survivors, visit, whnf, Effects, MatchView, MatcherView, OfferView,
};
use vstd::prelude::*;

verus! {

/// Whether the explicit substitutions bind and substitute the same, under whatever identifiers.
pub open spec fn alike(a: Seq<NodeView>, b: Seq<NodeView>) -> bool
    decreases a,
{
    &&& a.len() == b.len()
    &&& forall|i: int|
        #![trigger a[i]]
        #![trigger b[i]]
        0 <= i < a.len() ==> a[i].bindings == b[i].bindings && match (
            a[i].entry.subst,
            b[i].entry.subst,
        ) {
            (None, None) => true,
            (Some(s), Some(t)) => s.args == t.args && alike(s.es, t.es),
            _ => false,
        }
}

/// Whether the nodes bind and substitute the same.
pub open spec fn alike_nodes(a: NodeView, b: NodeView) -> bool {
    &&& a.bindings == b.bindings
    &&& match (a.entry.subst, b.entry.subst) {
        (None, None) => true,
        (Some(s), Some(t)) => s.args == t.args && alike(s.es, t.es),
        _ => false,
    }
}

/// Whether the terms are the same but for identifiers.
pub open spec fn alike_terms(s: TermView, t: TermView) -> bool {
    s.base == t.base && alike(s.es, t.es)
}

/// Whether the heads are the same but for identifiers.
pub open spec fn alike_heads(a: Head, b: Head) -> bool {
    match (a, b) {
        (Head::Var(v), Head::Var(w)) => v.index == w.index && v.bind == w.bind,
        (Head::Meta(m), Head::Meta(n)) => m == n,
        _ => false,
    }
}

/// Whether the weak head normal forms are the same but for identifiers.
pub open spec fn alike_forms(w: WhnfView, v: WhnfView) -> bool {
    alike_terms(w.term, v.term) && alike_heads(w.head, v.head)
}

/// Whether the matchers are the same but for identifiers.
spec fn alike_matcher(m: MatcherView, n: MatcherView) -> bool {
    m.rule == n.rule && m.position == n.position && alike_terms(m.replacement, n.replacement)
}

/// Whether the lists of matchers are the same but for identifiers.
spec fn alike_matchers(a: Seq<MatcherView>, b: Seq<MatcherView>) -> bool {
    &&& a.len() == b.len()
    &&& forall|i: int|
        #![trigger a[i]]
        #![trigger b[i]]
        0 <= i < a.len() ==> alike_matcher(a[i], b[i])
}

/// Whether matching came to the same but for identifiers.
spec fn alike_matches(a: MatchView, b: MatchView) -> bool {
    match (a, b) {
        (
            MatchView::Found { term: s, rule: r, stuck: x },
            MatchView::Found { term: t, rule: q, stuck: y },
        ) => alike_terms(s, t) && r == q && x == y,
        (MatchView::Open { patterns: s, stuck: x }, MatchView::Open { patterns: t, stuck: y }) => {
            alike_matchers(s, t) && x == y
        },
        _ => false,
    }
}

/// Whether offering a symbol came to the same but for identifiers.
spec fn alike_offers(a: OfferView, b: OfferView) -> bool {
    match (a, b) {
        (OfferView::Found { term: s, rule: r }, OfferView::Found { term: t, rule: q }) => {
            alike_terms(s, t) && r == q
        },
        (
            OfferView::Open { patterns: s, recursive: x, ordering: o },
            OfferView::Open { patterns: t, recursive: y, ordering: p },
        ) => alike_matchers(s, t) && alike_matchers(x, y) && o == p,
        _ => false,
    }
}

/// Whether matching comes to the same but for identifiers, unless those run out.
spec fn match_follows(
    a: Result<(MatchView, Effects), Fault>,
    b: Result<(MatchView, Effects), Fault>,
) -> bool {
    a matches Ok((x, _)) ==> match b {
        Ok((y, _)) => alike_matches(x, y),
        Err(f) => f == Fault::Exhausted,
    }
}

/// Whether `b` comes to the same as `a` but for identifiers, unless those run out.
pub open spec fn whnf_follows(
    a: Result<(WhnfView, Effects), Fault>,
    b: Result<(WhnfView, Effects), Fault>,
) -> bool {
    a matches Ok((x, _)) ==> match b {
        Ok((y, _)) => alike_forms(x, y),
        Err(f) => f == Fault::Exhausted,
    }
}

/// Every explicit substitution is alike to itself.
pub proof fn lemma_alike_same(a: Seq<NodeView>)
    ensures
        alike(a, a),
    decreases a,
{
    assert forall|i: int| #![trigger a[i]] 0 <= i < a.len() implies match (
        a[i].entry.subst,
        a[i].entry.subst,
    ) {
        (None, None) => true,
        (Some(s), Some(t)) => s.args == t.args && alike(s.es, t.es),
        _ => false,
    } by {
        if let Some(s) = a[i].entry.subst {
            lemma_alike_same(s.es);
        }
    }
}

pub proof fn lemma_alike_at(a: Seq<NodeView>, b: Seq<NodeView>, i: int)
    requires
        alike(a, b),
        0 <= i < a.len(),
    ensures
        alike_nodes(a[i], b[i]),
{
}

pub proof fn lemma_alike_appended(a: Seq<NodeView>, b: Seq<NodeView>, m: NodeView, n: NodeView)
    requires
        alike(a, b),
        alike_nodes(m, n),
    ensures
        alike(appended(a, m), appended(b, n)),
{
    if !m.bindings.none() {
        let (x, y) = (seq![m] + a, seq![n] + b);
        assert forall|i: int|
            #![trigger x[i]]
            #![trigger y[i]]
            0 <= i < x.len() implies x[i].bindings == y[i].bindings && match (
            x[i].entry.subst,
            y[i].entry.subst,
        ) {
            (None, None) => true,
            (Some(s), Some(t)) => s.args == t.args && alike(s.es, t.es),
            _ => false,
        } by {
            if i > 0 {
                lemma_alike_at(a, b, i - 1);
                assert(x[i] == a[i - 1]);
                assert(y[i] == b[i - 1]);
            }
        }
    }
}

proof fn lemma_alike_skip(a: Seq<NodeView>, b: Seq<NodeView>, d: int)
    requires
        alike(a, b),
        0 <= d <= a.len(),
    ensures
        alike(a.skip(d), b.skip(d)),
{
    let (x, y) = (a.skip(d), b.skip(d));
    assert forall|i: int|
        #![trigger x[i]]
        #![trigger y[i]]
        0 <= i < x.len() implies x[i].bindings == y[i].bindings && match (
        x[i].entry.subst,
        y[i].entry.subst,
    ) {
        (None, None) => true,
        (Some(s), Some(t)) => s.args == t.args && alike(s.es, t.es),
        _ => false,
    } by {
        lemma_alike_at(a, b, d + i);
        assert(x[i] == a[d + i]);
        assert(y[i] == b[d + i]);
    }
}

proof fn lemma_alike_survivors(a: Seq<MatcherView>, b: Seq<MatcherView>)
    requires
        alike_matchers(a, b),
    ensures
        alike_matchers(survivors(a), survivors(b)),
    decreases a.len(),
{
    if a.len() > 0 {
        assert(alike_matcher(a[a.len() - 1], b[b.len() - 1]));
        let (x, y) = (a.drop_last(), b.drop_last());
        assert forall|i: int|
            #![trigger x[i]]
            #![trigger y[i]]
            0 <= i < x.len() implies alike_matcher(x[i], y[i]) by {
            assert(alike_matcher(a[i], b[i]));
        }
        lemma_alike_survivors(x, y);
    }
}

proof fn lemma_offer_alike(
    h: Heap,
    s: TermView,
    t: TermView,
    v: Var,
    w: Var,
    a: Seq<MatcherView>,
    b: Seq<MatcherView>,
    c: Seq<MatcherView>,
    d: Seq<MatcherView>,
    ordering: Option<Seq<usize>>,
    i: nat,
    e: Effects,
    f: Effects,
)
    requires
        alike_terms(s, t),
        v.bind == w.bind,
        alike_matchers(a, b),
        alike_matchers(c, d),
        i <= a.len(),
    ensures
        offer(h, s, v, a, c, ordering, i, e) matches Ok((x, _)) ==> match offer(
            h,
            t,
            w,
            b,
            d,
            ordering,
            i,
            f,
        ) {
            Ok((y, _)) => alike_offers(x, y),
            Err(g) => g == Fault::Exhausted,
        },
    decreases i,
{
    if i > 0 {
        let k = i - 1;
        let (m, n) = (a[k], b[k]);
        assert(alike_matcher(m, n));
        if m.more() {
            match m.front() {
                None => {
                    let (x, y) = (a.update(k, m.advanced()), b.update(k, n.advanced()));
                    assert forall|j: int|
                        #![trigger x[j]]
                        #![trigger y[j]]
                        0 <= j < x.len() implies alike_matcher(x[j], y[j]) by {
                        assert(alike_matcher(a[j], b[j]));
                    }
                    lemma_offer_alike(h, s, t, v, w, x, y, c, d, ordering, k as nat, e, f);
                },
                Some(symbol) => {
                    let (x, y) = (a.remove(k), b.remove(k));
                    assert forall|j: int|
                        #![trigger x[j]]
                        #![trigger y[j]]
                        0 <= j < x.len() implies alike_matcher(x[j], y[j]) by {
                        if j < k {
                            assert(alike_matcher(a[j], b[j]));
                        } else {
                            assert(alike_matcher(a[j + 1], b[j + 1]));
                        }
                    }
                    if symbol.bind == v.bind {
                        let (p, q) = (m.bound(h, s, symbol, e.next), n.bound(h, t, symbol, f.next));
                        let args = h.metas[s.base as int].assignment->0.args;
                        let (u, z) = (
                            NodeView {
                                entry: subst_entry(SubstView { args, es: s.es }, e.next),
                                bindings: symbol.bindings,
                            },
                            NodeView {
                                entry: subst_entry(SubstView { args, es: t.es }, f.next),
                                bindings: symbol.bindings,
                            },
                        );
                        lemma_alike_appended(m.replacement.es, n.replacement.es, u, z);
                        assert(alike_matcher(p, q));
                        let (c2, d2) = (c.push(p), d.push(q));
                        assert forall|j: int|
                            #![trigger c2[j]]
                            #![trigger d2[j]]
                            0 <= j < c2.len() implies alike_matcher(c2[j], d2[j]) by {
                            if j < c.len() {
                                assert(alike_matcher(c[j], d[j]));
                            }
                        }
                        lemma_offer_alike(
                            h,
                            s,
                            t,
                            v,
                            w,
                            x,
                            y,
                            c2,
                            d2,
                            Some(symbol.children),
                            k as nat,
                            e.plus(2, links(symbol.bindings)),
                            f.plus(2, links(symbol.bindings)),
                        );
                    } else {
                        lemma_offer_alike(h, s, t, v, w, x, y, c, d, ordering, k as nat, e, f);
                    }
                },
            }
        }
    }
}

proof fn lemma_visit_alike(
    h: Heap,
    s: TermView,
    t: TermView,
    children: Seq<usize>,
    k: nat,
    a: Seq<MatcherView>,
    b: Seq<MatcherView>,
    keeps: bool,
    can_stuck: bool,
    stuck: Option<MetaId>,
    fuel: nat,
    e: Effects,
    f: Effects,
)
    requires
        alike_terms(s, t),
        alike_matchers(a, b),
    ensures
        match_follows(
            visit(h, s, children, k, a, keeps, can_stuck, stuck, fuel, e),
            visit(h, t, children, k, b, keeps, can_stuck, stuck, fuel, f),
        ),
    decreases fuel + 1, 0nat, children.len() - k,
{
    if k < children.len() && e.can_draw(2) && f.can_draw(2) {
        let i = children[k as int] as int;
        if has_arg(h, s, i) {
            let (x, y) = (
                vars_entry(e.next, (e.next + STRIDE) as u64),
                vars_entry(f.next, (f.next + STRIDE) as u64),
            );
            let bindings = arg_bindings(h, s, i);
            lemma_alike_appended(
                s.es,
                t.es,
                NodeView { entry: x, bindings },
                NodeView { entry: y, bindings },
            );
            let (p, q) = (argument(h, s, i, x), argument(h, t, i, y));
            let (e2, f2) = (e.plus(2, links(bindings)), f.plus(2, links(bindings)));
            law_whnf_alike(h, p, q, true, keeps, fuel, e2, f2);
            match (whnf(h, p, true, keeps, fuel, e2), whnf(h, q, true, keeps, fuel, f2)) {
                (Ok((v, e3)), Ok((w, f3))) => {
                    lemma_match_alike(h, v, w, a, b, keeps, can_stuck, stuck, fuel, e3, f3);
                    match (
                        pattern_match(h, v, a, keeps, can_stuck, stuck, fuel, e3),
                        pattern_match(h, w, b, keeps, can_stuck, stuck, fuel, f3),
                    ) {
                        (
                            Ok((MatchView::Open { patterns: l, stuck: z }, e4)),
                            Ok((MatchView::Open { patterns: r, stuck: _ }, f4)),
                        ) => {
                            if l.len() > 0 {
                                lemma_visit_alike(
                                    h,
                                    s,
                                    t,
                                    children,
                                    k + 1,
                                    l,
                                    r,
                                    keeps,
                                    can_stuck,
                                    z,
                                    fuel,
                                    e4,
                                    f4,
                                );
                            }
                        },
                        _ => {},
                    }
                },
                _ => {},
            }
        }
    }
}

proof fn lemma_match_alike(
    h: Heap,
    v: WhnfView,
    w: WhnfView,
    a: Seq<MatcherView>,
    b: Seq<MatcherView>,
    keeps: bool,
    can_stuck: bool,
    stuck: Option<MetaId>,
    fuel: nat,
    e: Effects,
    f: Effects,
)
    requires
        alike_forms(v, w),
        alike_matchers(a, b),
    ensures
        match_follows(
            pattern_match(h, v, a, keeps, can_stuck, stuck, fuel, e),
            pattern_match(h, w, b, keeps, can_stuck, stuck, fuel, f),
        ),
    decreases fuel, 1nat, 0nat,
{
    if fuel > 0 {
        match (v.head, w.head) {
            (Head::Meta(m), Head::Meta(_)) => {
                lemma_alike_survivors(a, b);
                assert((forall|k: int| 0 <= k < a.len() ==> (#[trigger] a[k]).more()) ==> (forall|
                    k: int,
                | 0 <= k < b.len() ==> (#[trigger] b[k]).more())) by {
                    assert forall|k: int| 0 <= k < b.len() && a[k].more() implies (
                    #[trigger] b[k]).more() by {
                        assert(alike_matcher(a[k], b[k]));
                    }
                }
            },
            (Head::Var(x), Head::Var(y)) => {
                if h.assigned(v.term.base) {
                    let none = Seq::<MatcherView>::empty();
                    lemma_offer_alike(
                        h,
                        v.term,
                        w.term,
                        x,
                        y,
                        a,
                        b,
                        none,
                        none,
                        None,
                        a.len(),
                        e,
                        f,
                    );
                    match (
                        offer(h, v.term, x, a, none, None, a.len(), e),
                        offer(h, w.term, y, b, none, None, b.len(), f),
                    ) {
                        (
                            Ok((OfferView::Open { patterns: l, recursive: c, ordering }, e2)),
                            Ok((OfferView::Open { patterns: r, recursive: d, ordering: _ }, f2)),
                        ) => {
                            let children = match ordering {
                                None => Seq::empty(),
                                Some(s) => s,
                            };
                            let less = (fuel - 1) as nat;
                            lemma_visit_alike(
                                h,
                                v.term,
                                w.term,
                                children,
                                0,
                                c,
                                d,
                                keeps,
                                can_stuck,
                                stuck,
                                less,
                                e2,
                                f2,
                            );
                            match (
                                visit(
                                    h,
                                    v.term,
                                    children,
                                    0,
                                    c,
                                    keeps,
                                    can_stuck,
                                    stuck,
                                    less,
                                    e2,
                                ),
                                visit(
                                    h,
                                    w.term,
                                    children,
                                    0,
                                    d,
                                    keeps,
                                    can_stuck,
                                    stuck,
                                    less,
                                    f2,
                                ),
                            ) {
                                (
                                    Ok((MatchView::Open { patterns: p, .. }, _)),
                                    Ok((MatchView::Open { patterns: q, .. }, _)),
                                ) => {
                                    lemma_alike_joined(l, r, p, q);
                                },
                                _ => {},
                            }
                        },
                        _ => {},
                    }
                }
            },
            _ => {},
        }
    }
}

proof fn lemma_alike_joined(
    l: Seq<MatcherView>,
    r: Seq<MatcherView>,
    p: Seq<MatcherView>,
    q: Seq<MatcherView>,
)
    requires
        alike_matchers(l, r),
        alike_matchers(p, q),
    ensures
        alike_matchers(l + p, r + q),
{
    let (x, y) = (l + p, r + q);
    assert forall|i: int|
        #![trigger x[i]]
        #![trigger y[i]]
        0 <= i < x.len() implies alike_matcher(x[i], y[i]) by {
        if i < l.len() {
            assert(alike_matcher(l[i], r[i]));
        } else {
            assert(alike_matcher(p[i - l.len()], q[i - l.len()]));
        }
    }
}

/// Terms that are the same but for identifiers reduce to forms that are the same but for
/// identifiers, whatever identifiers are drawn, unless those run out.
pub proof fn law_whnf_alike(
    h: Heap,
    s: TermView,
    t: TermView,
    rules: bool,
    keeps: bool,
    fuel: nat,
    e: Effects,
    f: Effects,
)
    requires
        alike_terms(s, t),
    ensures
        whnf_follows(whnf(h, s, rules, keeps, fuel, e), whnf(h, t, rules, keeps, fuel, f)),
    decreases fuel, 0nat, 1nat,
{
    if fuel > 0 && h.assigned(s.base) {
        let a = h.metas[s.base as int].assignment->0;
        let d = a.head.0.0 as int;
        if d < s.es.len() {
            lemma_alike_at(s.es, t.es, d);
            let (m, n) = (s.es[d], t.es[d]);
            match (replaces(m, a.head.1), replaces(n, a.head.1)) {
                (Some((x, i)), Some((y, _))) => {
                    if i < x.args.len() && x.args[i] < h.metas.len() && e.can_draw(2)
                        && f.can_draw(2) {
                        let bindings = h.metas[x.args[i] as int].bindings;
                        let (p, q) = (
                            subst_entry(SubstView { args: a.args, es: s.es }, e.next),
                            subst_entry(SubstView { args: a.args, es: t.es }, f.next),
                        );
                        lemma_alike_appended(
                            x.es,
                            y.es,
                            NodeView { entry: p, bindings },
                            NodeView { entry: q, bindings },
                        );
                        law_whnf_alike(
                            h,
                            substituted(h, x, i, p),
                            substituted(h, y, i, q),
                            rules,
                            keeps,
                            (fuel - 1) as nat,
                            e.plus(2, links(bindings)),
                            f.plus(2, links(bindings)),
                        );
                    }
                },
                (None, None) => {
                    if m.bindings.has(a.head.1) && m.bindings.at(a.head.1) < h.binds.len() && rules
                        && h.binds[m.bindings.at(a.head.1) as int].rules.len() > 0 {
                        lemma_alike_rules(h, s, t, keeps, fuel, e, f);
                    }
                },
                _ => {},
            }
        }
    }
}

proof fn lemma_alike_rules(
    h: Heap,
    s: TermView,
    t: TermView,
    keeps: bool,
    fuel: nat,
    e: Effects,
    f: Effects,
)
    requires
        fuel > 0,
        alike_terms(s, t),
        h.assigned(s.base),
        ({
            let a = h.metas[s.base as int].assignment->0;
            let d = a.head.0.0 as int;
            &&& d < s.es.len()
            &&& replaces(s.es[d], a.head.1) is None
            &&& s.es[d].bindings.has(a.head.1)
            &&& s.es[d].bindings.at(a.head.1) < h.binds.len()
            &&& h.binds[s.es[d].bindings.at(a.head.1) as int].rules.len() > 0
        }),
    ensures
        whnf_follows(whnf(h, s, true, keeps, fuel, e), whnf(h, t, true, keeps, fuel, f)),
    decreases fuel, 0nat, 0nat,
{
    let a = h.metas[s.base as int].assignment->0;
    let d = a.head.0.0 as int;
    lemma_alike_at(s.es, t.es, d);
    let (m, n) = (s.es[d], t.es[d]);
    let (v, w) = (
        WhnfView { term: s, head: Head::Var(var_at(m, a.head.1)) },
        WhnfView { term: t, head: Head::Var(var_at(n, a.head.1)) },
    );
    let rules = h.binds[m.bindings.at(a.head.1) as int].rules;
    let (x, y) = (initial(rules, s.es.skip(d)), initial(rules, t.es.skip(d)));
    lemma_alike_skip(s.es, t.es, d);
    assert(alike_matchers(x, y)) by {
        assert forall|i: int|
            #![trigger x[i]]
            #![trigger y[i]]
            0 <= i < x.len() implies alike_matcher(x[i], y[i]) by {}
    }
    let can = h.metas[s.base as int].from_original_problem;
    let less = (fuel - 1) as nat;
    lemma_match_alike(h, v, w, x, y, keeps, can, None, less, e, f);
    match (
        pattern_match(h, v, x, keeps, can, None, less, e),
        pattern_match(h, w, y, keeps, can, None, less, f),
    ) {
        (
            Ok((MatchView::Found { term: p, rule, .. }, e2)),
            Ok((MatchView::Found { term: q, .. }, f2)),
        ) => {
            law_whnf_alike(
                h,
                p,
                q,
                true,
                keeps,
                less,
                e2.noting(keeps, rule),
                f2.noting(keeps, rule),
            );
        },
        _ => {},
    }
}

/// What is in weak head normal form is its own weak head normal form, at any depth that has
/// sufficed to reduce it and whatever identifiers are drawn, unless those run out.
pub proof fn law_whnf_idempotent(
    h: Heap,
    t: TermView,
    rules: bool,
    keeps: bool,
    fuel: nat,
    e: Effects,
    more: nat,
    f: Effects,
)
    requires
        whnf(h, t, rules, keeps, fuel, e) is Ok,
        fuel <= more,
    ensures
        ({
            let w = (whnf(h, t, rules, keeps, fuel, e)->Ok_0).0;
            match whnf(h, w.term, rules, keeps, more, f) {
                Ok((v, _)) => v == w,
                Err(g) => rules && g == Fault::Exhausted,
            }
        }),
    decreases fuel,
{
    if h.assigned(t.base) {
        let a = h.metas[t.base as int].assignment->0;
        let node = t.es[a.head.0.0 as int];
        match replaces(node, a.head.1) {
            Some((s, i)) => {
                let entry = subst_entry(SubstView { args: a.args, es: t.es }, e.next);
                law_whnf_idempotent(
                    h,
                    substituted(h, s, i, entry),
                    rules,
                    keeps,
                    (fuel - 1) as nat,
                    e.plus(2, links(h.metas[s.args[i] as int].bindings)),
                    more,
                    f,
                );
            },
            None => {
                let var = var_at(node, a.head.1);
                let bind = h.binds[var.bind as int];
                if rules && bind.rules.len() > 0 {
                    let done = WhnfView { term: t, head: Head::Var(var) };
                    let start = initial(bind.rules, t.es.skip(a.head.0.0 as int));
                    let can = h.metas[t.base as int].from_original_problem;
                    let less = (fuel - 1) as nat;
                    match pattern_match(h, done, start, keeps, can, None, less, e) {
                        Ok((MatchView::Found { term, rule, .. }, e2)) => {
                            law_whnf_idempotent(
                                h,
                                term,
                                rules,
                                keeps,
                                less,
                                e2.noting(keeps, rule),
                                more,
                                f,
                            );
                        },
                        _ => {
                            lemma_alike_same(t.es);
                            lemma_alike_start(bind.rules, t.es.skip(a.head.0.0 as int));
                            lemma_match_alike(
                                h,
                                done,
                                done,
                                start,
                                start,
                                keeps,
                                can,
                                None,
                                less,
                                e,
                                f,
                            );
                            law_whnf_deeper(h, t, rules, keeps, fuel, more, f);
                        },
                    }
                }
            },
        }
    }
}

proof fn lemma_alike_start(rules: Seq<crate::data::RuleView>, es: Seq<NodeView>)
    ensures
        alike_matchers(initial(rules, es), initial(rules, es)),
{
    lemma_alike_same(es);
}

/// A term whose base is unassigned is in weak head normal form, stuck on its base, and nothing is
/// drawn, linked or noted to see it.
pub proof fn law_whnf_open(
    h: Heap,
    t: TermView,
    rules: bool,
    keeps: bool,
    fuel: nat,
    e: Effects,
)
    requires
        t.base < h.metas.len(),
        !h.assigned(t.base),
        fuel > 0,
    ensures
        whnf(h, t, rules, keeps, fuel, e) == Ok::<(WhnfView, Effects), Fault>(
            (WhnfView { term: t, head: Head::Meta(t.base) }, e),
        ),
{
}

} // verus!
