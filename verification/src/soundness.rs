//! What reduction and matching come to is what the relations between terms allow.
use crate::data::{Head, MetaId, NodeView, SubstView, TermView, Var, WhnfView};
use crate::equality::{
    any, entered, fires_by, goes_over, has_argument, head_of, is_entered, lemma_absent, meets,
    meets_as, ordered_as, reaches, takes, takes_all, takes_at, takes_next, unfolds, unfolds_as,
};
use crate::es::{links, subst_entry, var_at, vars_entry};
use crate::fresh::{
    drawn_matchers, law_whnf_drawn, lemma_drawn_appended, lemma_drawn_at, lemma_drawn_skip,
    lemma_match_drawn, lemma_matchers_later, lemma_offer_drawn,
};
use crate::ids::STRIDE;
use crate::memory::Heap;
use crate::normal::{head_var, law_whnf_normal};
use crate::settled::{drawn, lemma_es_drawn_later};
use crate::term::{
    arg_bindings, argument, has_arg, initial, offer, pattern_match, replaces, substituted,
    survivors, visit, whnf, Effects, MatchView, MatcherView, OfferView,
};
use vstd::prelude::*;

verus! {

/// Whether the matchers are of rules of `b`.
spec fn of_bind(h: Heap, b: usize, ms: Seq<MatcherView>) -> bool {
    &&& b < h.binds.len()
    &&& forall|k: int| 0 <= k < ms.len() ==> h.binds[b as int].rules.contains((#[trigger] ms[k]).rule)
}

/// Whether matching `s` takes one of the matchers to `m`.
spec fn comes(
    h: Heap,
    b: usize,
    s: TermView,
    from: Seq<MatcherView>,
    m: MatcherView,
    n: nat,
) -> bool {
    exists|k: int| 0 <= k < from.len() && takes(h, b, s, #[trigger] from[k], m, n)
}

/// Whether each of `ms` is what matching `s` takes one of the matchers to.
spec fn all_come(
    h: Heap,
    b: usize,
    s: TermView,
    from: Seq<MatcherView>,
    ms: Seq<MatcherView>,
    n: nat,
) -> bool {
    forall|j: int| 0 <= j < ms.len() ==> comes(h, b, s, from, #[trigger] ms[j], n)
}

/// Whether `m` is one of the matchers, with the symbol of `bind` met at the head of `t`.
spec fn opened(
    h: Heap,
    t: TermView,
    bind: usize,
    from: Seq<MatcherView>,
    m: MatcherView,
) -> bool {
    exists|k: int|
        0 <= k < from.len() && (#[trigger] from[k]).more() && from[k].front() is Some
            && from[k].front()->0.bind == bind && meets(h, t, from[k].front()->0, from[k], m)
}

/// Whether each of `ms` is one of the matchers, with the symbol of `bind` met at the head of `t`.
spec fn all_opened(
    h: Heap,
    t: TermView,
    bind: usize,
    from: Seq<MatcherView>,
    ms: Seq<MatcherView>,
) -> bool {
    forall|j: int| 0 <= j < ms.len() ==> opened(h, t, bind, from, #[trigger] ms[j])
}

/// The matcher of a rule that has been met to its end.
spec fn complete(rule: crate::data::RuleView, term: TermView) -> MatcherView {
    MatcherView { rule, position: rule.pattern.len(), replacement: term }
}

/// The order of the children, where there are matchers below.
spec fn ordering_fits(
    h: Heap,
    b: usize,
    bind: usize,
    recursive: Seq<MatcherView>,
    ordering: Option<Seq<usize>>,
) -> bool {
    recursive.len() > 0 ==> (ordering matches Some(c) && ordered_as(h, b, bind, c))
}

proof fn lemma_survivors_take(
    h: Heap,
    b: usize,
    s: TermView,
    from: Seq<MatcherView>,
    ms: Seq<MatcherView>,
    n: nat,
)
    requires
        forall|k: int| 0 <= k < ms.len() ==> (#[trigger] ms[k]).more() && from.contains(ms[k]),
    ensures
        all_come(h, b, s, from, survivors(ms), n),
    decreases ms.len(),
{
    if ms.len() > 0 {
        let rest = ms.drop_last();
        assert forall|k: int| 0 <= k < rest.len() implies (#[trigger] rest[k]).more()
            && from.contains(rest[k]) by {
            assert(rest[k] == ms[k]);
        }
        lemma_survivors_take(h, b, s, from, rest, n);
        let last = ms[ms.len() - 1];
        assert(last.more() && from.contains(last));
        if last.front() is None {
            let k = choose|k: int| 0 <= k < from.len() && from[k] == last;
            assert(takes(h, b, s, from[k], last.advanced(), n));
            assert(comes(h, b, s, from, last.advanced(), n));
        }
    }
}

proof fn lemma_offer_takes(
    h: Heap,
    b: usize,
    s: TermView,
    t: TermView,
    var: Var,
    from: Seq<MatcherView>,
    patterns: Seq<MatcherView>,
    recursive: Seq<MatcherView>,
    ordering: Option<Seq<usize>>,
    i: nat,
    e: Effects,
    n: nat,
)
    requires
        reaches(h, s, t, n),
        head_of(h, t) == Some(var),
        of_bind(h, b, from),
        i <= patterns.len(),
        i <= from.len(),
        forall|j: int| 0 <= j < i ==> patterns[j] == #[trigger] from[j],
        forall|j: int|
            i <= j < patterns.len() ==> comes(h, b, s, from, #[trigger] patterns[j], n),
        all_opened(h, t, var.bind, from, recursive),
        ordering_fits(h, b, var.bind, recursive, ordering),
        drawn(t.es, e.next),
        drawn_matchers(patterns, e.next),
    ensures
        match offer(h, t, var, patterns, recursive, ordering, i, e) {
            Err(_) => true,
            Ok((OfferView::Found { term, rule }, _)) => comes(
                h,
                b,
                s,
                from,
                complete(rule, term),
                n,
            ),
            Ok((OfferView::Open { patterns: ps, recursive: rs, ordering: o }, _)) => {
                &&& all_come(h, b, s, from, ps, n)
                &&& all_opened(h, t, var.bind, from, rs)
                &&& ordering_fits(h, b, var.bind, rs, o)
            },
        },
    decreases i,
{
    if i > 0 {
        let k = i - 1;
        let m = patterns[k];
        assert(from[k] == m);
        if m.more() {
            match m.front() {
                None => {
                    let ps = patterns.update(k, m.advanced());
                    assert(takes(h, b, s, from[k], m.advanced(), n));
                    assert(comes(h, b, s, from, m.advanced(), n));
                    assert(drawn_matchers(ps, e.next));
                    lemma_offer_takes(
                        h,
                        b,
                        s,
                        t,
                        var,
                        from,
                        ps,
                        recursive,
                        ordering,
                        k as nat,
                        e,
                        n,
                    );
                },
                Some(symbol) => {
                    let ps = patterns.remove(k);
                    assert forall|j: int| 0 <= j < ps.len() implies drawn(
                        (#[trigger] ps[j]).replacement.es,
                        e.next,
                    ) by {
                        if j < k {
                            assert(ps[j] == patterns[j]);
                        } else {
                            assert(ps[j] == patterns[j + 1]);
                        }
                    }
                    assert forall|j: int| k <= j < ps.len() implies comes(
                        h,
                        b,
                        s,
                        from,
                        #[trigger] ps[j],
                        n,
                    ) by {
                        assert(ps[j] == patterns[j + 1]);
                    }
                    if symbol.bind == var.bind {
                        if e.can_draw(2) {
                            let r = m.bound(h, t, symbol, e.next);
                            let e2 = e.plus(2, links(symbol.bindings));
                            let (x, y) = (e.next, (e.next + STRIDE) as u64);
                            lemma_absent(x, t.es, e.next);
                            lemma_absent(y, t.es, e.next);
                            lemma_absent(x, m.replacement.es, e.next);
                            lemma_absent(y, m.replacement.es, e.next);
                            assert(meets_as(h, t, symbol, m, r, x, y));
                            assert(meets(h, t, symbol, m, r));
                            assert(opened(h, t, var.bind, from, r));
                            assert(ordered_as(h, b, symbol.bind, symbol.children)) by {
                                assert(h.binds[b as int].rules.contains(from[k].rule));
                                assert(m.rule.pattern[m.position as int] == Some(symbol));
                            }
                            if !r.more() {
                                let end = complete(r.rule, r.replacement);
                                assert(r == end);
                                assert(takes_all(h, b, t, symbol.children, 0, r, end, n));
                                assert(takes_at(
                                    h,
                                    b,
                                    s,
                                    t,
                                    symbol,
                                    m,
                                    r,
                                    symbol.children,
                                    end,
                                    n,
                                ));
                                assert(any((t, r, symbol.children)));
                                assert(takes(h, b, s, from[k], end, n));
                            } else {
                                let more = recursive.push(r);
                                assert forall|j: int| 0 <= j < more.len() implies opened(
                                    h,
                                    t,
                                    var.bind,
                                    from,
                                    #[trigger] more[j],
                                ) by {
                                    if j < recursive.len() {
                                        assert(more[j] == recursive[j]);
                                    }
                                }
                                lemma_es_drawn_later(t.es, e.next, e2.next);
                                lemma_matchers_later(ps, e.next, e2.next);
                                lemma_offer_takes(
                                    h,
                                    b,
                                    s,
                                    t,
                                    var,
                                    from,
                                    ps,
                                    more,
                                    Some(symbol.children),
                                    k as nat,
                                    e2,
                                    n,
                                );
                            }
                        }
                    } else {
                        lemma_offer_takes(
                            h,
                            b,
                            s,
                            t,
                            var,
                            from,
                            ps,
                            recursive,
                            ordering,
                            k as nat,
                            e,
                            n,
                        );
                    }
                },
            }
        }
    }
}

/// Whether matching the children from the `k`th on takes one of the matchers to `m`.
spec fn comes_below(
    h: Heap,
    b: usize,
    t: TermView,
    children: Seq<usize>,
    k: nat,
    from: Seq<MatcherView>,
    m: MatcherView,
    n: nat,
) -> bool {
    exists|j: int| 0 <= j < from.len() && takes_all(h, b, t, children, k, #[trigger] from[j], m, n)
}

proof fn lemma_visit_takes(
    h: Heap,
    b: usize,
    t: TermView,
    children: Seq<usize>,
    k: nat,
    patterns: Seq<MatcherView>,
    keeps: bool,
    can_stuck: bool,
    stuck: Option<MetaId>,
    fuel: nat,
    e: Effects,
    n: nat,
)
    requires
        fuel <= n,
        of_bind(h, b, patterns),
        drawn(t.es, e.next),
        drawn_matchers(patterns, e.next),
    ensures
        match visit(h, t, children, k, patterns, keeps, can_stuck, stuck, fuel, e) {
            Err(_) => true,
            Ok((MatchView::Found { term, rule, .. }, _)) => comes_below(
                h,
                b,
                t,
                children,
                k,
                patterns,
                complete(rule, term),
                n,
            ),
            Ok((MatchView::Open { patterns: left, .. }, _)) => forall|j: int|
                0 <= j < left.len() ==> comes_below(
                    h,
                    b,
                    t,
                    children,
                    k,
                    patterns,
                    #[trigger] left[j],
                    n,
                ),
        },
    decreases fuel + 1, 0nat, children.len() - k,
{
    if k >= children.len() {
        assert forall|j: int| 0 <= j < patterns.len() implies comes_below(
            h,
            b,
            t,
            children,
            k,
            patterns,
            #[trigger] patterns[j],
            n,
        ) by {
            assert(takes_all(h, b, t, children, k, patterns[j], patterns[j], n));
        }
    } else if e.can_draw(2) {
        let i = children[k as int] as int;
        let (x, y) = (e.next, (e.next + STRIDE) as u64);
        let entry = vars_entry(x, y);
        if has_arg(h, t, i) {
            let bindings = arg_bindings(h, t, i);
            let e2 = e.plus(2, links(bindings));
            let arg = argument(h, t, i, entry);
            lemma_absent(x, t.es, e.next);
            lemma_absent(y, t.es, e.next);
            assert(arg == entered(h, t, i, x, y));
            assert(is_entered(h, t, i, arg));
            lemma_es_drawn_later(t.es, e.next, e2.next);
            lemma_drawn_appended(t.es, NodeView { entry, bindings }, e2.next);
            law_whnf_drawn(h, arg, true, keeps, fuel, e2);
            law_whnf_reaches(h, arg, true, keeps, fuel, e2, n);
            match whnf(h, arg, true, keeps, fuel, e2) {
                Err(_) => {},
                Ok((w, e3)) => {
                    lemma_matchers_later(patterns, e.next, e3.next);
                    lemma_match_drawn(h, w, patterns, keeps, can_stuck, stuck, fuel, e3);
                    lemma_match_takes(
                        h,
                        b,
                        arg,
                        w,
                        patterns,
                        keeps,
                        can_stuck,
                        stuck,
                        fuel,
                        e3,
                        n,
                    );
                    match pattern_match(h, w, patterns, keeps, can_stuck, stuck, fuel, e3) {
                        Ok((MatchView::Found { term, rule, .. }, _)) => {
                            let end = complete(rule, term);
                            let j = choose|j: int|
                                0 <= j < patterns.len() && takes(
                                    h,
                                    b,
                                    arg,
                                    #[trigger] patterns[j],
                                    end,
                                    n,
                                );
                            assert(takes_all(h, b, t, children, k + 1, end, end, n));
                            assert(takes_next(
                                h,
                                b,
                                t,
                                children,
                                k,
                                patterns[j],
                                arg,
                                end,
                                end,
                                n,
                            ));
                            assert(any((arg, end)));
                            assert(takes_all(h, b, t, children, k, patterns[j], end, n));
                        },
                        Ok((MatchView::Open { patterns: left, stuck: z }, e4)) => {
                            if left.len() > 0 {
                                lemma_es_drawn_later(t.es, e.next, e4.next);
                                assert(of_bind(h, b, left)) by {
                                    assert forall|q: int|
                                        0 <= q < left.len() implies h.binds[b as int].rules.contains(
                                        (#[trigger] left[q]).rule) by {
                                        assert(comes(h, b, arg, patterns, left[q], n));
                                        let j = choose|j: int|
                                            0 <= j < patterns.len() && takes(
                                                h,
                                                b,
                                                arg,
                                                #[trigger] patterns[j],
                                                left[q],
                                                n,
                                            );
                                        assert(h.binds[b as int].rules.contains(patterns[j].rule));
                                    }
                                }
                                lemma_visit_takes(
                                    h,
                                    b,
                                    t,
                                    children,
                                    k + 1,
                                    left,
                                    keeps,
                                    can_stuck,
                                    z,
                                    fuel,
                                    e4,
                                    n,
                                );
                                match visit(
                                    h,
                                    t,
                                    children,
                                    k + 1,
                                    left,
                                    keeps,
                                    can_stuck,
                                    z,
                                    fuel,
                                    e4,
                                ) {
                                    Err(_) => {},
                                    Ok((MatchView::Found { term, rule, .. }, _)) => {
                                        lemma_below(
                                            h,
                                            b,
                                            t,
                                            children,
                                            k,
                                            patterns,
                                            left,
                                            arg,
                                            complete(rule, term),
                                            n,
                                        );
                                    },
                                    Ok((MatchView::Open { patterns: last, .. }, _)) => {
                                        assert forall|q: int| 0 <= q < last.len() implies comes_below(
                                            h,
                                            b,
                                            t,
                                            children,
                                            k,
                                            patterns,
                                            #[trigger] last[q],
                                            n,
                                        ) by {
                                            lemma_below(
                                                h,
                                                b,
                                                t,
                                                children,
                                                k,
                                                patterns,
                                                left,
                                                arg,
                                                last[q],
                                                n,
                                            );
                                        }
                                    },
                                }
                            }
                        },
                        _ => {},
                    }
                },
            }
        }
    }
}

proof fn lemma_below(
    h: Heap,
    b: usize,
    t: TermView,
    children: Seq<usize>,
    k: nat,
    from: Seq<MatcherView>,
    left: Seq<MatcherView>,
    arg: TermView,
    m: MatcherView,
    n: nat,
)
    requires
        k < children.len(),
        has_argument(h, t, children[k as int] as int),
        is_entered(h, t, children[k as int] as int, arg),
        all_come(h, b, arg, from, left, n),
        comes_below(h, b, t, children, k + 1, left, m, n),
    ensures
        comes_below(h, b, t, children, k, from, m, n),
{
    let j = choose|j: int|
        0 <= j < left.len() && takes_all(h, b, t, children, k + 1, #[trigger] left[j], m, n);
    assert(comes(h, b, arg, from, left[j], n));
    let i = choose|i: int| 0 <= i < from.len() && takes(h, b, arg, #[trigger] from[i], left[j], n);
    assert(takes_next(h, b, t, children, k, from[i], arg, left[j], m, n));
    assert(any((arg, left[j])));
    assert(takes_all(h, b, t, children, k, from[i], m, n));
}

proof fn lemma_match_takes(
    h: Heap,
    b: usize,
    s: TermView,
    w: WhnfView,
    patterns: Seq<MatcherView>,
    keeps: bool,
    can_stuck: bool,
    stuck: Option<MetaId>,
    fuel: nat,
    e: Effects,
    n: nat,
)
    requires
        fuel <= n,
        reaches(h, s, w.term, n),
        w.head matches Head::Var(v) ==> head_of(h, w.term) == Some(v),
        of_bind(h, b, patterns),
        drawn(w.term.es, e.next),
        drawn_matchers(patterns, e.next),
    ensures
        match pattern_match(h, w, patterns, keeps, can_stuck, stuck, fuel, e) {
            Err(_) => true,
            Ok((MatchView::Found { term, rule, .. }, _)) => comes(
                h,
                b,
                s,
                patterns,
                complete(rule, term),
                n,
            ),
            Ok((MatchView::Open { patterns: left, .. }, _)) => all_come(
                h,
                b,
                s,
                patterns,
                left,
                n,
            ),
        },
    decreases fuel, 1nat, 0nat,
{
    if fuel > 0 {
        match w.head {
            Head::Meta(_) => {
                if forall|k: int| 0 <= k < patterns.len() ==> (#[trigger] patterns[k]).more() {
                    lemma_survivors_take(h, b, s, patterns, patterns, n);
                }
            },
            Head::Var(var) => {
                if h.assigned(w.term.base) {
                    let none = Seq::<MatcherView>::empty();
                    lemma_offer_takes(
                        h,
                        b,
                        s,
                        w.term,
                        var,
                        patterns,
                        patterns,
                        none,
                        None,
                        patterns.len(),
                        e,
                        n,
                    );
                    lemma_offer_drawn(h, w.term, var, patterns, none, None, patterns.len(), e);
                    match offer(h, w.term, var, patterns, none, None, patterns.len(), e) {
                        Ok((OfferView::Open { patterns: left, recursive, ordering }, e2)) => {
                            let children = match ordering {
                                None => Seq::empty(),
                                Some(c) => c,
                            };
                            let less = (fuel - 1) as nat;
                            lemma_es_drawn_later(w.term.es, e.next, e2.next);
                            assert forall|q: int| 0 <= q < recursive.len() implies h.binds[b as int].rules.contains(
                            (#[trigger] recursive[q]).rule) by {
                                assert(opened(h, w.term, var.bind, patterns, recursive[q]));
                                let k = choose|k: int|
                                    0 <= k < patterns.len() && (#[trigger] patterns[k]).more()
                                        && patterns[k].front() is Some && patterns[k].front()->0.bind
                                        == var.bind && meets(
                                        h,
                                        w.term,
                                        patterns[k].front()->0,
                                        patterns[k],
                                        recursive[q],
                                    );
                                assert(h.binds[b as int].rules.contains(patterns[k].rule));
                            }
                            lemma_visit_takes(
                                h,
                                b,
                                w.term,
                                children,
                                0,
                                recursive,
                                keeps,
                                can_stuck,
                                stuck,
                                less,
                                e2,
                                n,
                            );
                            match visit(
                                h,
                                w.term,
                                children,
                                0,
                                recursive,
                                keeps,
                                can_stuck,
                                stuck,
                                less,
                                e2,
                            ) {
                                Ok((MatchView::Found { term, rule, .. }, _)) => {
                                    lemma_above(
                                        h,
                                        b,
                                        s,
                                        w.term,
                                        var,
                                        patterns,
                                        recursive,
                                        children,
                                        complete(rule, term),
                                        n,
                                    );
                                },
                                Ok((MatchView::Open { patterns: more, .. }, e3)) => {
                                    let all = left + more;
                                    assert forall|q: int| 0 <= q < all.len() implies comes(
                                        h,
                                        b,
                                        s,
                                        patterns,
                                        #[trigger] all[q],
                                        n,
                                    ) by {
                                        if q < left.len() {
                                            assert(all[q] == left[q]);
                                        } else {
                                            assert(all[q] == more[q - left.len()]);
                                            lemma_above(
                                                h,
                                                b,
                                                s,
                                                w.term,
                                                var,
                                                patterns,
                                                recursive,
                                                children,
                                                all[q],
                                                n,
                                            );
                                        }
                                    }
                                },
                                Err(_) => {},
                            }
                        },
                        _ => {},
                    }
                }
            },
        }
    }
}

proof fn lemma_above(
    h: Heap,
    b: usize,
    s: TermView,
    t: TermView,
    var: Var,
    from: Seq<MatcherView>,
    recursive: Seq<MatcherView>,
    children: Seq<usize>,
    m: MatcherView,
    n: nat,
)
    requires
        reaches(h, s, t, n),
        head_of(h, t) == Some(var),
        all_opened(h, t, var.bind, from, recursive),
        ordering_fits(h, b, var.bind, recursive, Some(children)),
        comes_below(h, b, t, children, 0, recursive, m, n),
    ensures
        comes(h, b, s, from, m, n),
{
    let j = choose|j: int|
        0 <= j < recursive.len() && takes_all(h, b, t, children, 0, #[trigger] recursive[j], m, n);
    let r = recursive[j];
    assert(opened(h, t, var.bind, from, r));
    let k = choose|k: int|
        0 <= k < from.len() && (#[trigger] from[k]).more() && from[k].front() is Some
            && from[k].front()->0.bind == var.bind && meets(
            h,
            t,
            from[k].front()->0,
            from[k],
            r,
        );
    let symbol = from[k].front()->0;
    assert(takes_at(h, b, s, t, symbol, from[k], r, children, m, n));
    assert(any((t, r, children)));
    lemma_takes_all_forward(h, b, t, children, 0, r, m, n);
    assert(takes(h, b, s, from[k], m, n));
}

proof fn lemma_takes_all_forward(
    h: Heap,
    b: usize,
    t: TermView,
    children: Seq<usize>,
    k: nat,
    m: MatcherView,
    m2: MatcherView,
    n: nat,
)
    requires
        takes_all(h, b, t, children, k, m, m2, n),
        m.position <= m.rule.pattern.len(),
    ensures
        m2.rule == m.rule,
        m2.replacement.base == m.replacement.base,
        m.position <= m2.position <= m.rule.pattern.len(),
    decreases m.rule.pattern.len() - m.position,
{
    if k < children.len() && m.position < m.rule.pattern.len() {
        let (u, m1) = choose|u: TermView, m1: MatcherView| #[trigger]
            any((u, m1)) && takes_next(h, b, t, children, k, m, u, m1, m2, n);
        lemma_takes_all_forward(h, b, t, children, k + 1, m1, m2, n);
    }
}

/// The two ways to say what is at the head of a term.
pub proof fn lemma_head_var(h: Heap, t: TermView)
    ensures
        head_of(h, t) == head_var(h, t),
{
}

/// A term reduces to its weak head normal form, which has the variable at its head that is said to
/// be there. A step puts what is substituted for the head in its place, or applies a rule of the
/// head whose whole pattern matches.
pub proof fn law_whnf_reaches(
    h: Heap,
    t: TermView,
    rules: bool,
    keeps: bool,
    fuel: nat,
    e: Effects,
    n: nat,
)
    requires
        fuel <= n,
        drawn(t.es, e.next),
    ensures
        whnf(h, t, rules, keeps, fuel, e) matches Ok((w, _)) ==> {
            &&& reaches(h, t, w.term, n)
            &&& match w.head {
                Head::Var(v) => head_of(h, w.term) == Some(v),
                Head::Meta(m) => m < h.metas.len() && h.metas[m as int].assignment is None,
            }
        },
    decreases fuel, 0nat, 0nat,
{
    law_whnf_normal(h, t, rules, keeps, fuel, e);
    if let Ok((w, _)) = whnf(h, t, rules, keeps, fuel, e) {
        lemma_head_var(h, w.term);
    }
    if fuel > 0 && h.assigned(t.base) {
        let a = h.metas[t.base as int].assignment->0;
        let d = a.head.0.0 as int;
        if d < t.es.len() {
            lemma_drawn_at(t.es, e.next, d);
            let node = t.es[d];
            let less = (fuel - 1) as nat;
            let m = (n - 1) as nat;
            match replaces(node, a.head.1) {
                Some((s, i)) => {
                    if i < s.args.len() && s.args[i] < h.metas.len() && e.can_draw(2) {
                        let (x, y) = (e.next, (e.next + STRIDE) as u64);
                        let bindings = h.metas[s.args[i] as int].bindings;
                        let entry = subst_entry(SubstView { args: a.args, es: t.es }, e.next);
                        let e2 = e.plus(2, links(bindings));
                        lemma_es_drawn_later(t.es, e.next, e2.next);
                        lemma_es_drawn_later(s.es, e.next, e2.next);
                        lemma_drawn_appended(s.es, NodeView { entry, bindings }, e2.next);
                        let u = substituted(h, s, i, entry);
                        lemma_absent(x, t.es, e.next);
                        lemma_absent(y, t.es, e.next);
                        assert(unfolds_as(h, t, u, x, y));
                        assert(unfolds(h, t, u));
                        law_whnf_reaches(h, u, rules, keeps, less, e2, m);
                        if let Ok((w, _)) = whnf(h, t, rules, keeps, fuel, e) {
                            assert(goes_over(h, t, u, w.term, m));
                            assert(any(u));
                        }
                    }
                },
                None => {
                    if node.bindings.has(a.head.1) && node.bindings.at(a.head.1) < h.binds.len()
                        && rules && h.binds[node.bindings.at(a.head.1) as int].rules.len() > 0 {
                        let var = var_at(node, a.head.1);
                        let bind = h.binds[var.bind as int];
                        let done = WhnfView { term: t, head: Head::Var(var) };
                        let start = initial(bind.rules, t.es.skip(d));
                        let can = h.metas[t.base as int].from_original_problem;
                        lemma_head_var(h, t);
                        lemma_drawn_skip(t.es, d, e.next);
                        assert forall|k: int| 0 <= k < start.len() implies bind.rules.contains(
                            (#[trigger] start[k]).rule,
                        ) by {
                            assert(start[k].rule == bind.rules[k]);
                        }
                        lemma_match_drawn(h, done, start, keeps, can, None, less, e);
                        lemma_match_takes(
                            h,
                            var.bind,
                            t,
                            done,
                            start,
                            keeps,
                            can,
                            None,
                            less,
                            e,
                            m,
                        );
                        match pattern_match(h, done, start, keeps, can, None, less, e) {
                            Ok((MatchView::Found { term, rule, .. }, e2)) => {
                                let e3 = e2.noting(keeps, rule);
                                law_whnf_reaches(h, term, rules, keeps, less, e3, m);
                                let end = complete(rule, term);
                                let k = choose|k: int|
                                    0 <= k < start.len() && takes(
                                        h,
                                        var.bind,
                                        t,
                                        #[trigger] start[k],
                                        end,
                                        m,
                                    );
                                assert(start[k].rule == rule);
                                assert(bind.rules.contains(rule));
                                assert(fires_by(h, t, rule, term, m));
                                assert(any(rule));
                                if let Ok((w, _)) = whnf(h, t, rules, keeps, fuel, e) {
                                    assert(goes_over(h, t, term, w.term, m));
                                    assert(any(term));
                                }
                            },
                            _ => {},
                        }
                    }
                },
            }
        }
    }
}

} // verus!
