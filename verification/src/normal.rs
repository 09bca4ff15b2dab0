//! What holds of every reduction.
use crate::data::{Head, MetaId, TermView, Var, WhnfView};
use crate::es::{links, subst_entry, var_at, vars_entry};
use crate::ids::{Fault, STRIDE};
use crate::memory::Heap;
use crate::term::{
    arg_bindings, argument, has_arg, initial, offer, pattern_match, replaces, substituted, visit,
    whnf, Effects, MatchView, MatcherView, OfferView,
};
use vstd::prelude::*;

verus! {

/// Whether `m` is in the store and unassigned.
pub open spec fn open_meta(h: Heap, m: MetaId) -> bool {
    m < h.metas.len() && h.metas[m as int].assignment is None
}

/// Whether `after` can come of `before`: identifiers, links and notes are only ever added.
pub open spec fn extends(before: Effects, after: Effects) -> bool {
    &&& before.next <= after.next
    &&& before.links <= after.links
    &&& before.noted.is_prefix_of(after.noted)
}

/// The variable at the head of `t`, where its base is assigned and the head is not substituted.
pub open spec fn head_var(h: Heap, t: TermView) -> Option<Var> {
    if h.assigned(t.base) {
        let a = h.metas[t.base as int].assignment->0;
        if a.head.0.0 < t.es.len() && replaces(t.es[a.head.0.0 as int], a.head.1) is None
            && t.es[a.head.0.0 as int].bindings.has(a.head.1) {
            Some(var_at(t.es[a.head.0.0 as int], a.head.1))
        } else {
            None
        }
    } else {
        None
    }
}

/// Whether `w` is a weak head normal form: its head is the variable at the head of the term, or
/// an unassigned metavariable, which is the base of the term itself unless a variable is there.
pub open spec fn is_normal(h: Heap, w: WhnfView) -> bool {
    match w.head {
        Head::Var(v) => head_var(h, w.term) == Some(v),
        Head::Meta(m) => open_meta(h, m) && (w.term.base == m || head_var(h, w.term) is Some),
    }
}

/// Whether a metavariable that matching is stuck on is unassigned.
pub open spec fn stuck_open(h: Heap, stuck: Option<MetaId>) -> bool {
    stuck matches Some(m) ==> open_meta(h, m)
}

/// Whether matching started with `stuck` and effects `e` came to something sound.
spec fn match_sound(h: Heap, e: Effects, r: Result<(MatchView, Effects), Fault>) -> bool {
    match r {
        Err(_) => true,
        Ok((MatchView::Found { .. }, e2)) => extends(e, e2),
        Ok((MatchView::Open { patterns, stuck }, e2)) => extends(e, e2) && stuck_open(h, stuck),
    }
}

proof fn lemma_offer_extends(
    h: Heap,
    t: TermView,
    var: Var,
    patterns: Seq<MatcherView>,
    recursive: Seq<MatcherView>,
    ordering: Option<Seq<usize>>,
    i: nat,
    e: Effects,
)
    ensures
        offer(h, t, var, patterns, recursive, ordering, i, e) matches Ok((_, e2)) ==> extends(
            e,
            e2,
        ),
    decreases i,
{
    if i > 0 {
        let k = i - 1;
        let m = patterns[k];
        if m.more() {
            match m.front() {
                None => {
                    lemma_offer_extends(
                        h,
                        t,
                        var,
                        patterns.update(k, m.advanced()),
                        recursive,
                        ordering,
                        k as nat,
                        e,
                    );
                },
                Some(symbol) => {
                    let n = m.bound(h, t, symbol, e.next);
                    let e2 = e.plus(2, links(symbol.bindings));
                    lemma_offer_extends(
                        h,
                        t,
                        var,
                        patterns.remove(k),
                        recursive.push(n),
                        Some(symbol.children),
                        k as nat,
                        e2,
                    );
                    lemma_offer_extends(
                        h,
                        t,
                        var,
                        patterns.remove(k),
                        recursive,
                        ordering,
                        k as nat,
                        e,
                    );
                },
            }
        }
    }
}

proof fn lemma_visit_sound(
    h: Heap,
    t: TermView,
    children: Seq<usize>,
    k: nat,
    patterns: Seq<MatcherView>,
    keeps: bool,
    can_stuck: bool,
    stuck: Option<MetaId>,
    fuel: nat,
    e: Effects,
)
    requires
        stuck_open(h, stuck),
    ensures
        match_sound(
            h,
            e,
            visit(h, t, children, k, patterns, keeps, can_stuck, stuck, fuel, e),
        ),
    decreases fuel + 1, 0nat, children.len() - k,
{
    if k < children.len() && e.can_draw(2) {
        let i = children[k as int] as int;
        let entry = vars_entry(e.next, (e.next + STRIDE) as u64);
        if has_arg(h, t, i) {
            let e2 = e.plus(2, links(arg_bindings(h, t, i)));
            law_whnf_normal(h, argument(h, t, i, entry), true, keeps, fuel, e2);
            match whnf(h, argument(h, t, i, entry), true, keeps, fuel, e2) {
                Err(_) => {},
                Ok((w, e3)) => {
                    lemma_match_sound(h, w, patterns, keeps, can_stuck, stuck, fuel, e3);
                    match pattern_match(h, w, patterns, keeps, can_stuck, stuck, fuel, e3) {
                        Ok((MatchView::Open { patterns: left, stuck: s }, e4)) => {
                            if left.len() > 0 {
                                lemma_visit_sound(
                                    h,
                                    t,
                                    children,
                                    k + 1,
                                    left,
                                    keeps,
                                    can_stuck,
                                    s,
                                    fuel,
                                    e4,
                                );
                            }
                        },
                        _ => {},
                    }
                },
            }
        }
    }
}

proof fn lemma_match_sound(
    h: Heap,
    w: WhnfView,
    patterns: Seq<MatcherView>,
    keeps: bool,
    can_stuck: bool,
    stuck: Option<MetaId>,
    fuel: nat,
    e: Effects,
)
    requires
        stuck_open(h, stuck),
        w.head matches Head::Meta(m) ==> open_meta(h, m),
    ensures
        match_sound(h, e, pattern_match(h, w, patterns, keeps, can_stuck, stuck, fuel, e)),
    decreases fuel, 1nat, 0nat,
{
    if fuel > 0 {
        if let Head::Var(var) = w.head {
            if h.assigned(w.term.base) {
                lemma_offer_extends(
                    h,
                    w.term,
                    var,
                    patterns,
                    Seq::empty(),
                    None,
                    patterns.len(),
                    e,
                );
                match offer(h, w.term, var, patterns, Seq::empty(), None, patterns.len(), e) {
                    Ok((OfferView::Open { patterns: left, recursive, ordering }, e2)) => {
                        let children = match ordering {
                            None => Seq::empty(),
                            Some(c) => c,
                        };
                        lemma_visit_sound(
                            h,
                            w.term,
                            children,
                            0,
                            recursive,
                            keeps,
                            can_stuck,
                            stuck,
                            (fuel - 1) as nat,
                            e2,
                        );
                    },
                    _ => {},
                }
            }
        }
    }
}

/// Reduction ends in a weak head normal form, and only ever adds identifiers, links and notes.
pub proof fn law_whnf_normal(
    h: Heap,
    t: TermView,
    rules: bool,
    keeps: bool,
    fuel: nat,
    e: Effects,
)
    ensures
        whnf(h, t, rules, keeps, fuel, e) matches Ok((w, e2)) ==> is_normal(h, w) && extends(
            e,
            e2,
        ),
    decreases fuel, 0nat, 0nat,
{
    if fuel > 0 && h.assigned(t.base) {
        let a = h.metas[t.base as int].assignment->0;
        if a.head.0.0 < t.es.len() {
            let node = t.es[a.head.0.0 as int];
            match replaces(node, a.head.1) {
                Some((s, i)) => {
                    if i < s.args.len() && s.args[i] < h.metas.len() && e.can_draw(2) {
                        let entry = subst_entry(
                            crate::data::SubstView { args: a.args, es: t.es },
                            e.next,
                        );
                        law_whnf_normal(
                            h,
                            substituted(h, s, i, entry),
                            rules,
                            keeps,
                            (fuel - 1) as nat,
                            e.plus(2, links(h.metas[s.args[i] as int].bindings)),
                        );
                    }
                },
                None => {
                    if node.bindings.has(a.head.1) && node.bindings.at(a.head.1) < h.binds.len()
                        && rules {
                        let var = var_at(node, a.head.1);
                        let bind = h.binds[var.bind as int];
                        let done = WhnfView { term: t, head: Head::Var(var) };
                        let start = initial(bind.rules, t.es.skip(a.head.0.0 as int));
                        let can = h.metas[t.base as int].from_original_problem;
                        lemma_match_sound(
                            h,
                            done,
                            start,
                            keeps,
                            can,
                            None,
                            (fuel - 1) as nat,
                            e,
                        );
                        match pattern_match(
                            h,
                            done,
                            start,
                            keeps,
                            can,
                            None,
                            (fuel - 1) as nat,
                            e,
                        ) {
                            Ok((MatchView::Found { term, rule, .. }, e2)) => {
                                law_whnf_normal(
                                    h,
                                    term,
                                    rules,
                                    keeps,
                                    (fuel - 1) as nat,
                                    e2.noting(keeps, rule),
                                );
                            },
                            _ => {},
                        }
                    }
                },
            }
        }
    }
}

/// Without rules, what is in weak head normal form is its own weak head normal form, and no
/// identifier is drawn to see it.
pub proof fn law_whnf_settled(
    h: Heap,
    t: TermView,
    keeps: bool,
    fuel: nat,
    e: Effects,
    fuel2: nat,
    e2: Effects,
)
    requires
        whnf(h, t, false, keeps, fuel, e) is Ok,
        fuel2 > 0,
    ensures
        ({
            let w = (whnf(h, t, false, keeps, fuel, e)->Ok_0).0;
            whnf(h, w.term, false, keeps, fuel2, e2) == Ok::<(WhnfView, Effects), Fault>((w, e2))
        }),
    decreases fuel,
{
    if h.assigned(t.base) {
        let a = h.metas[t.base as int].assignment->0;
        let node = t.es[a.head.0.0 as int];
        match replaces(node, a.head.1) {
            Some((s, i)) => {
                let entry = subst_entry(
                    crate::data::SubstView { args: a.args, es: t.es },
                    e.next,
                );
                law_whnf_settled(
                    h,
                    substituted(h, s, i, entry),
                    keeps,
                    (fuel - 1) as nat,
                    e.plus(2, links(h.metas[s.args[i] as int].bindings)),
                    fuel2,
                    e2,
                );
            },
            None => {},
        }
    }
}

proof fn lemma_visit_deeper(
    h: Heap,
    t: TermView,
    children: Seq<usize>,
    k: nat,
    patterns: Seq<MatcherView>,
    keeps: bool,
    can_stuck: bool,
    stuck: Option<MetaId>,
    fuel: nat,
    more: nat,
    e: Effects,
)
    requires
        fuel <= more,
        visit(h, t, children, k, patterns, keeps, can_stuck, stuck, fuel, e) != Err::<
            (MatchView, Effects),
            Fault,
        >(Fault::Overflow),
    ensures
        visit(h, t, children, k, patterns, keeps, can_stuck, stuck, more, e) == visit(
            h,
            t,
            children,
            k,
            patterns,
            keeps,
            can_stuck,
            stuck,
            fuel,
            e,
        ),
    decreases fuel + 1, 0nat, children.len() - k,
{
    if k < children.len() && e.can_draw(2) {
        let i = children[k as int] as int;
        let entry = vars_entry(e.next, (e.next + STRIDE) as u64);
        if has_arg(h, t, i) {
            let e2 = e.plus(2, links(arg_bindings(h, t, i)));
            law_whnf_deeper(h, argument(h, t, i, entry), true, keeps, fuel, more, e2);
            match whnf(h, argument(h, t, i, entry), true, keeps, fuel, e2) {
                Err(_) => {},
                Ok((w, e3)) => {
                    lemma_match_deeper(h, w, patterns, keeps, can_stuck, stuck, fuel, more, e3);
                    match pattern_match(h, w, patterns, keeps, can_stuck, stuck, fuel, e3) {
                        Ok((MatchView::Open { patterns: left, stuck: s }, e4)) => {
                            if left.len() > 0 {
                                lemma_visit_deeper(
                                    h,
                                    t,
                                    children,
                                    k + 1,
                                    left,
                                    keeps,
                                    can_stuck,
                                    s,
                                    fuel,
                                    more,
                                    e4,
                                );
                            }
                        },
                        _ => {},
                    }
                },
            }
        }
    }
}

proof fn lemma_match_deeper(
    h: Heap,
    w: WhnfView,
    patterns: Seq<MatcherView>,
    keeps: bool,
    can_stuck: bool,
    stuck: Option<MetaId>,
    fuel: nat,
    more: nat,
    e: Effects,
)
    requires
        fuel <= more,
        pattern_match(h, w, patterns, keeps, can_stuck, stuck, fuel, e) != Err::<
            (MatchView, Effects),
            Fault,
        >(Fault::Overflow),
    ensures
        pattern_match(h, w, patterns, keeps, can_stuck, stuck, more, e) == pattern_match(
            h,
            w,
            patterns,
            keeps,
            can_stuck,
            stuck,
            fuel,
            e,
        ),
    decreases fuel, 1nat, 0nat,
{
    if fuel > 0 {
        if let Head::Var(var) = w.head {
            if h.assigned(w.term.base) {
                match offer(h, w.term, var, patterns, Seq::empty(), None, patterns.len(), e) {
                    Ok((OfferView::Open { patterns: left, recursive, ordering }, e2)) => {
                        let children = match ordering {
                            None => Seq::empty(),
                            Some(c) => c,
                        };
                        lemma_visit_deeper(
                            h,
                            w.term,
                            children,
                            0,
                            recursive,
                            keeps,
                            can_stuck,
                            stuck,
                            (fuel - 1) as nat,
                            (more - 1) as nat,
                            e2,
                        );
                    },
                    _ => {},
                }
            }
        }
    }
}

/// The permitted depth decides nothing but whether a reduction gets to its end: where it does,
/// it ends the same way at any greater depth.
pub proof fn law_whnf_deeper(
    h: Heap,
    t: TermView,
    rules: bool,
    keeps: bool,
    fuel: nat,
    more: nat,
    e: Effects,
)
    requires
        fuel <= more,
        whnf(h, t, rules, keeps, fuel, e) != Err::<(WhnfView, Effects), Fault>(Fault::Overflow),
    ensures
        whnf(h, t, rules, keeps, more, e) == whnf(h, t, rules, keeps, fuel, e),
    decreases fuel, 0nat, 0nat,
{
    if fuel > 0 && h.assigned(t.base) {
        let a = h.metas[t.base as int].assignment->0;
        if a.head.0.0 < t.es.len() {
            let node = t.es[a.head.0.0 as int];
            match replaces(node, a.head.1) {
                Some((s, i)) => {
                    if i < s.args.len() && s.args[i] < h.metas.len() && e.can_draw(2) {
                        let entry = subst_entry(
                            crate::data::SubstView { args: a.args, es: t.es },
                            e.next,
                        );
                        law_whnf_deeper(
                            h,
                            substituted(h, s, i, entry),
                            rules,
                            keeps,
                            (fuel - 1) as nat,
                            (more - 1) as nat,
                            e.plus(2, links(h.metas[s.args[i] as int].bindings)),
                        );
                    }
                },
                None => {
                    if node.bindings.has(a.head.1) && node.bindings.at(a.head.1) < h.binds.len()
                        && rules && h.binds[node.bindings.at(a.head.1) as int].rules.len() > 0 {
                        let var = var_at(node, a.head.1);
                        let bind = h.binds[var.bind as int];
                        let done = WhnfView { term: t, head: Head::Var(var) };
                        let start = initial(bind.rules, t.es.skip(a.head.0.0 as int));
                        let can = h.metas[t.base as int].from_original_problem;
                        lemma_match_deeper(
                            h,
                            done,
                            start,
                            keeps,
                            can,
                            None,
                            (fuel - 1) as nat,
                            (more - 1) as nat,
                            e,
                        );
                        match pattern_match(
                            h,
                            done,
                            start,
                            keeps,
                            can,
                            None,
                            (fuel - 1) as nat,
                            e,
                        ) {
                            Ok((MatchView::Found { term, rule, .. }, e2)) => {
                                law_whnf_deeper(
                                    h,
                                    term,
                                    rules,
                                    keeps,
                                    (fuel - 1) as nat,
                                    (more - 1) as nat,
                                    e2.noting(keeps, rule),
                                );
                            },
                            _ => {},
                        }
                    }
                },
            }
        }
    }
}

/// Where no variable has rules, it makes no difference whether rules are applied.
pub proof fn law_whnf_without_rules(
    h: Heap,
    t: TermView,
    keeps: bool,
    fuel: nat,
    e: Effects,
)
    requires
        forall|b: int| 0 <= b < h.binds.len() ==> (#[trigger] h.binds[b]).rules.len() == 0,
    ensures
        whnf(h, t, true, keeps, fuel, e) == whnf(h, t, false, keeps, fuel, e),
    decreases fuel,
{
    if fuel > 0 && h.assigned(t.base) {
        let a = h.metas[t.base as int].assignment->0;
        if a.head.0.0 < t.es.len() {
            let node = t.es[a.head.0.0 as int];
            match replaces(node, a.head.1) {
                Some((s, i)) => {
                    let entry = subst_entry(
                        crate::data::SubstView { args: a.args, es: t.es },
                        e.next,
                    );
                    law_whnf_without_rules(
                        h,
                        substituted(h, s, i, entry),
                        keeps,
                        (fuel - 1) as nat,
                        e.plus(2, links(h.metas[s.args[i] as int].bindings)),
                    );
                },
                None => {},
            }
        }
    }
}

} // verus!
