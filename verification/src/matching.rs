//! Where a reduction stops, no rule matches.
use crate::alike::{
    alike_forms, alike_terms, law_whnf_alike, lemma_alike_appended, lemma_alike_same,
};
use crate::data::{
    Head, MetaId, NodeView, RuleView, SubstView, SymbolView, TermView, Var, WhnfView,
};
use crate::equality::{any, entered, has_argument, head_of};
use crate::es::{links, subst_entry, var_at, vars_entry};
use crate::ids::STRIDE;
use crate::memory::Heap;
use crate::normal::law_whnf_deeper;
use crate::soundness::lemma_head_var;
use crate::term::{
    arg_bindings, argument, has_arg, initial, offer, pattern_match, replaces, substituted,
    survivors, visit, whnf, Effects, MatchView, MatcherView, OfferView,
};
use vstd::prelude::*;

verus! {

/// Whether `w` is the weak head normal form of `s`, reduced with some identifiers. Rules that are
/// applied are noted, or not.
pub open spec fn normal_form(h: Heap, notes: bool, s: TermView, w: WhnfView) -> bool {
    exists|fuel: nat, e: Effects| #[trigger]
        whnf(h, s, true, notes, fuel, e) matches Ok((v, _)) && v == w
}

/// Whether `s` matches the pattern from the `i`th element on, up to the `j`th: that element stands
/// for anything, or it is the symbol at the head of the normal form of `s`, and the children match
/// the elements that follow.
pub open spec fn fits(
    h: Heap, notes: bool,
    s: TermView,
    pattern: Seq<Option<SymbolView>>,
    i: nat,
    j: nat,
) -> bool
    decreases pattern.len() - i, 1nat, 0nat,
{
    &&& i < pattern.len()
    &&& if pattern[i as int] is None {
        j == i + 1
    } else {
        exists|w: WhnfView| #[trigger]
            any(w) && normal_form(h, notes, s, w) && fits_at(h, notes, w, pattern, i, j)
    }
}

/// Whether the normal form `w` matches the pattern from the `i`th element on, up to the `j`th.
pub open spec fn fits_at(
    h: Heap, notes: bool,
    w: WhnfView,
    pattern: Seq<Option<SymbolView>>,
    i: nat,
    j: nat,
) -> bool
    decreases pattern.len() - i, 0nat, 0nat,
{
    &&& i < pattern.len()
    &&& match pattern[i as int] {
        None => j == i + 1,
        Some(symbol) => {
            &&& w.head matches Head::Var(v) && v.bind == symbol.bind
            &&& fits_all(h, notes, w.term, symbol.children, 0, pattern, i + 1, j)
        },
    }
}

/// Whether the arguments of `t` that `children` lists, from the `k`th on, match the pattern from
/// the `i`th element on, up to the `j`th.
pub open spec fn fits_all(
    h: Heap, notes: bool,
    t: TermView,
    children: Seq<usize>,
    k: nat,
    pattern: Seq<Option<SymbolView>>,
    i: nat,
    j: nat,
) -> bool
    decreases pattern.len() - i, 3nat, 0nat,
{
    if k >= children.len() {
        j == i
    } else {
        exists|l: nat, x: u64, y: u64| #[trigger]
            any((l, x, y)) && fits_next(h, notes, t, children, k, pattern, i, l, x, y, j)
    }
}

/// Whether the `k`th of the children matches from the `i`th element up to the `l`th, and the others
/// from there up to the `j`th.
pub open spec fn fits_next(
    h: Heap, notes: bool,
    t: TermView,
    children: Seq<usize>,
    k: nat,
    pattern: Seq<Option<SymbolView>>,
    i: nat,
    l: nat,
    x: u64,
    y: u64,
    j: nat,
) -> bool
    decreases pattern.len() - i, 2nat, 0nat,
{
    &&& has_argument(h, t, children[k as int] as int)
    &&& i < l <= pattern.len()
    &&& fits(h, notes, entered(h, t, children[k as int] as int, x, y), pattern, i, l)
    &&& fits_all(h, notes, t, children, k + 1, pattern, l, j)
}

/// Whether the whole pattern of the rule matches `t`, which has a variable at its head. The last
/// element of the pattern is a symbol.
pub open spec fn rule_fits(h: Heap, notes: bool, t: TermView, rule: RuleView) -> bool {
    &&& head_of(h, t) matches Some(v)
    &&& rule.pattern.len() > 0
    &&& rule.pattern.last() is Some
    &&& fits_at(
        h, notes,
        WhnfView { term: t, head: Head::Var(v) },
        rule.pattern,
        0,
        rule.pattern.len(),
    )
}

/// Whether the rules of `b` have the children of a symbol in one order only.
pub open spec fn coherent(h: Heap, b: usize) -> bool {
    forall|r: RuleView, q: RuleView, i: int, j: int|
        h.binds[b as int].rules.contains(r) && h.binds[b as int].rules.contains(q) && 0 <= i
            < r.pattern.len() && 0 <= j < q.pattern.len() ==> same_children(
            #[trigger] r.pattern[i],
            #[trigger] q.pattern[j],
        )
}

/// Whether the symbols, if they are the same, have their children in the same order.
pub open spec fn same_children(a: Option<SymbolView>, b: Option<SymbolView>) -> bool {
    (a matches Some(x) && b matches Some(y) && x.bind == y.bind) ==> a->0.children == b->0.children
}

/// Whether a matcher at the `i`th element of the pattern is not complete by a symbol.
spec fn unfinished(pattern: Seq<Option<SymbolView>>, i: nat) -> bool {
    &&& i <= pattern.len()
    &&& i == pattern.len() && i > 0 ==> pattern[i - 1] is None
}

/// Whether there is a matcher of `rule` at the `i`th element.
spec fn waiting(ms: Seq<MatcherView>, rule: RuleView, i: nat) -> bool {
    exists|k: int| 0 <= k < ms.len() && (#[trigger] ms[k]).rule == rule && ms[k].position == i
}

/// Whether there is such a matcher from the `k`th on.
spec fn waiting_from(ms: Seq<MatcherView>, k: int, rule: RuleView, i: nat) -> bool {
    exists|q: int| k <= q < ms.len() && (#[trigger] ms[q]).rule == rule && ms[q].position == i
}

/// Whether the matchers are of rules of `b`.
spec fn all_of(h: Heap, b: usize, ms: Seq<MatcherView>) -> bool {
    forall|k: int| 0 <= k < ms.len() ==> h.binds[b as int].rules.contains((#[trigger] ms[k]).rule)
}

proof fn lemma_survivors_wait(ms: Seq<MatcherView>, rule: RuleView, i: nat)
    requires
        waiting(ms, rule, i),
        i < rule.pattern.len(),
        rule.pattern[i as int] is None,
    ensures
        waiting(survivors(ms), rule, i + 1),
    decreases ms.len(),
{
    let k = choose|k: int|
        0 <= k < ms.len() && (#[trigger] ms[k]).rule == rule && ms[k].position == i;
    let last = ms.last();
    let rest = survivors(ms.drop_last());
    if k == ms.len() - 1 {
        assert(survivors(ms) == rest.push(last.advanced()));
        assert(survivors(ms)[rest.len() as int].rule == rule);
    } else {
        assert(ms.drop_last()[k] == ms[k]);
        lemma_survivors_wait(ms.drop_last(), rule, i);
        let q = choose|q: int|
            0 <= q < rest.len() && (#[trigger] rest[q]).rule == rule && rest[q].position == i + 1;
        assert(survivors(ms)[q] == rest[q]);
    }
}

proof fn lemma_survivors_of(h: Heap, b: usize, ms: Seq<MatcherView>)
    requires
        all_of(h, b, ms),
    ensures
        all_of(h, b, survivors(ms)),
    decreases ms.len(),
{
    if ms.len() > 0 {
        let rest = ms.drop_last();
        assert forall|k: int| 0 <= k < rest.len() implies h.binds[b as int].rules.contains(
            (#[trigger] rest[k]).rule,
        ) by {
            assert(rest[k] == ms[k]);
        }
        lemma_survivors_of(h, b, rest);
        assert(h.binds[b as int].rules.contains(ms[ms.len() - 1].rule));
    }
}

/// Whether the symbol, if it is of `bind`, has its children in the order `c`.
spec fn has_order(s: Option<SymbolView>, bind: usize, c: Seq<usize>) -> bool {
    s matches Some(x) ==> (x.bind == bind ==> x.children == c)
}

/// Whether the rules of `b` have the children of the symbol of `bind` in the order `c`.
spec fn orders(h: Heap, b: usize, bind: usize, c: Seq<usize>) -> bool {
    forall|r: RuleView, k: int|
        h.binds[b as int].rules.contains(r) && 0 <= k < r.pattern.len() ==> has_order(
            #[trigger] r.pattern[k],
            bind,
            c,
        )
}

/// Where the matcher of the rule goes when a variable is offered.
proof fn lemma_offer_waits(
    h: Heap,
    b: usize,
    t: TermView,
    var: Var,
    patterns: Seq<MatcherView>,
    recursive: Seq<MatcherView>,
    ordering: Option<Seq<usize>>,
    n: nat,
    e: Effects,
    rule: RuleView,
    i: nat,
    q: int,
)
    requires
        n <= patterns.len(),
        coherent(h, b),
        all_of(h, b, patterns),
        all_of(h, b, recursive),
        i < rule.pattern.len(),
        rule.pattern[i as int] matches Some(s) ==> s.bind == var.bind,
        h.binds[b as int].rules.contains(rule),
        ordering matches Some(c) ==> orders(h, b, var.bind, c),
        recursive.len() > 0 ==> ordering is Some,
        // the matcher is yet to be asked, stays, or has gone below
        (0 <= q < n && patterns[q].rule == rule && patterns[q].position == i) || (
        rule.pattern[i as int] is None && waiting_from(patterns, n as int, rule, i + 1)) || (
        rule.pattern[i as int] is Some && waiting(recursive, rule, i + 1) && unfinished(
            rule.pattern,
            i + 1,
        )),
    ensures
        match offer(h, t, var, patterns, recursive, ordering, n, e) {
            Ok((OfferView::Open { patterns: ps, recursive: rs, ordering: o }, _)) => {
                &&& all_of(h, b, ps)
                &&& all_of(h, b, rs)
                &&& rule.pattern[i as int] is None ==> waiting(ps, rule, i + 1)
                &&& rule.pattern[i as int] matches Some(s) ==> waiting(rs, rule, i + 1)
                    && unfinished(rule.pattern, i + 1) && o == Some(s.children)
            },
            _ => true,
        },
    decreases n,
{
    if n == 0 {
        if rule.pattern[i as int] is None {
            let k = choose|k: int|
                0 <= k < patterns.len() && (#[trigger] patterns[k]).rule == rule
                    && patterns[k].position == i + 1;
            assert(waiting(patterns, rule, i + 1));
        } else {
            assert(has_order(rule.pattern[i as int], var.bind, ordering->0));
        }
    } else {
        let k = n - 1;
        let m = patterns[k];
        assert(h.binds[b as int].rules.contains(m.rule));
        if m.more() {
            match m.front() {
                None => {
                    let ps = patterns.update(k, m.advanced());
                    assert(all_of(h, b, ps));
                    if q == k && m.rule == rule && m.position == i {
                        assert(ps[k].rule == rule && ps[k].position == i + 1);
                    } else if rule.pattern[i as int] is None && !(0 <= q < n && patterns[q].rule
                        == rule && patterns[q].position == i) {
                        let z = choose|z: int|
                            n <= z < patterns.len() && (#[trigger] patterns[z]).rule == rule
                                && patterns[z].position == i + 1;
                        assert(ps[z] == patterns[z]);
                    }
                    lemma_offer_waits(
                        h,
                        b,
                        t,
                        var,
                        ps,
                        recursive,
                        ordering,
                        k as nat,
                        e,
                        rule,
                        i,
                        q,
                    );
                },
                Some(symbol) => {
                    let ps = patterns.remove(k);
                    assert forall|z: int| 0 <= z < ps.len() implies h.binds[b as int].rules.contains(
                    (#[trigger] ps[z]).rule) by {
                        if z < k {
                            assert(ps[z] == patterns[z]);
                        } else {
                            assert(ps[z] == patterns[z + 1]);
                        }
                    }
                    let here = q == k && m.rule == rule && m.position == i;
                    if !here && rule.pattern[i as int] is None && !(0 <= q < n && patterns[q].rule
                        == rule && patterns[q].position == i) {
                        let z = choose|z: int|
                            n <= z < patterns.len() && (#[trigger] patterns[z]).rule == rule
                                && patterns[z].position == i + 1;
                        assert(ps[z - 1] == patterns[z]);
                    }
                    if symbol.bind == var.bind {
                        if e.can_draw(2) {
                            let r = m.bound(h, t, symbol, e.next);
                            let e2 = e.plus(2, links(symbol.bindings));
                            if r.more() {
                                let more = recursive.push(r);
                                assert forall|z: int| 0 <= z < more.len() implies h.binds[b as int].rules.contains(
                                (#[trigger] more[z]).rule) by {
                                    if z < recursive.len() {
                                        assert(more[z] == recursive[z]);
                                    }
                                }
                                assert(m.rule.pattern[m.position as int] == Some(symbol));
                                assert forall|r2: RuleView, z: int|
                                    h.binds[b as int].rules.contains(r2) && 0 <= z
                                        < r2.pattern.len() implies has_order(
                                    #[trigger] r2.pattern[z],
                                    var.bind,
                                    symbol.children,
                                ) by {
                                    assert(same_children(
                                        r2.pattern[z],
                                        m.rule.pattern[m.position as int],
                                    ));
                                }
                                if here {
                                    assert(more[recursive.len() as int].rule == rule);
                                } else if waiting(recursive, rule, i + 1) {
                                    let z = choose|z: int|
                                        0 <= z < recursive.len() && (#[trigger] recursive[z]).rule
                                            == rule && recursive[z].position == i + 1;
                                    assert(more[z] == recursive[z]);
                                }
                                lemma_offer_waits(
                                    h,
                                    b,
                                    t,
                                    var,
                                    ps,
                                    more,
                                    Some(symbol.children),
                                    k as nat,
                                    e2,
                                    rule,
                                    i,
                                    q,
                                );
                            }
                        }
                    } else {
                        lemma_offer_waits(
                            h,
                            b,
                            t,
                            var,
                            ps,
                            recursive,
                            ordering,
                            k as nat,
                            e,
                            rule,
                            i,
                            q,
                        );
                    }
                },
            }
        }
    }
}

proof fn lemma_visit_waits(
    h: Heap,
    b: usize,
    t0: TermView,
    t: TermView,
    children: Seq<usize>,
    k: nat,
    patterns: Seq<MatcherView>,
    keeps: bool,
    can_stuck: bool,
    stuck: Option<MetaId>,
    fuel: nat,
    e: Effects,
    rule: RuleView,
    i: nat,
    j: nat,
)
    requires
        coherent(h, b),
        all_of(h, b, patterns),
        h.binds[b as int].rules.contains(rule),
        alike_terms(t0, t),
        waiting(patterns, rule, i),
        unfinished(rule.pattern, i),
        fits_all(h, keeps, t0, children, k, rule.pattern, i, j),
    ensures
        match visit(h, t, children, k, patterns, keeps, can_stuck, stuck, fuel, e) {
            Ok((MatchView::Open { patterns: left, .. }, _)) => {
                &&& all_of(h, b, left)
                &&& waiting(left, rule, j)
                &&& unfinished(rule.pattern, j)
            },
            _ => true,
        },
    decreases fuel + 1, 0nat, children.len() - k,
{
    if k < children.len() && e.can_draw(2) {
        let c = children[k as int] as int;
        let (l, x, y) = choose|l: nat, x: u64, y: u64| #[trigger]
            any((l, x, y)) && fits_next(h, keeps, t0, children, k, rule.pattern, i, l, x, y, j);
        let entry = vars_entry(e.next, (e.next + STRIDE) as u64);
        if has_arg(h, t, c) {
            let bindings = arg_bindings(h, t, c);
            let e2 = e.plus(2, links(bindings));
            let arg = argument(h, t, c, entry);
            let arg0 = entered(h, t0, c, x, y);
            lemma_alike_appended(
                t0.es,
                t.es,
                NodeView { entry: vars_entry(x, y), bindings },
                NodeView { entry, bindings },
            );
            assert(arg0 == argument(h, t0, c, vars_entry(x, y)));
            assert(alike_terms(arg0, arg));
            match whnf(h, arg, true, keeps, fuel, e2) {
                Err(_) => {},
                Ok((w, e3)) => {
                    let w0 = lemma_normal_alike(h, arg0, arg, w, keeps, fuel, e2, rule.pattern, i, l);
                    lemma_match_waits(
                        h,
                        b,
                        w0,
                        w,
                        patterns,
                        keeps,
                        can_stuck,
                        stuck,
                        fuel,
                        e3,
                        rule,
                        i,
                        l,
                    );
                    match pattern_match(h, w, patterns, keeps, can_stuck, stuck, fuel, e3) {
                        Ok((MatchView::Open { patterns: left, stuck: z }, e4)) => {
                            lemma_visit_waits(
                                h,
                                b,
                                t0,
                                t,
                                children,
                                k + 1,
                                left,
                                keeps,
                                can_stuck,
                                z,
                                fuel,
                                e4,
                                rule,
                                l,
                                j,
                            );
                        },
                        _ => {},
                    }
                },
            }
        }
    }
}

/// The normal form by which the term was seen to match is the one that is found, but for
/// identifiers.
proof fn lemma_normal_alike(
    h: Heap,
    s0: TermView,
    s: TermView,
    w: WhnfView,
    keeps: bool,
    fuel: nat,
    e: Effects,
    pattern: Seq<Option<SymbolView>>,
    i: nat,
    j: nat,
) -> (w0: WhnfView)
    requires
        alike_terms(s0, s),
        whnf(h, s, true, keeps, fuel, e) matches Ok((v, _)) && v == w,
        fits(h, keeps, s0, pattern, i, j),
    ensures
        alike_forms(w0, w),
        fits_at(h, keeps, w0, pattern, i, j),
{
    if pattern[i as int] is None {
        lemma_alike_same(w.term.es);
        w
    } else {
        let w0 = choose|w0: WhnfView| #[trigger]
            any(w0) && normal_form(h, keeps, s0, w0) && fits_at(h, keeps, w0, pattern, i, j);
        let (fuel0, e0) = choose|fuel0: nat, e0: Effects| #[trigger]
            whnf(h, s0, true, keeps, fuel0, e0) matches Ok((v, _)) && v == w0;
        let more = fuel + fuel0;
        law_whnf_deeper(h, s, true, keeps, fuel, more, e);
        law_whnf_deeper(h, s0, true, keeps, fuel0, more, e0);
        law_whnf_alike(h, s0, s, true, keeps, more, e0, e);
        w0
    }
}

proof fn lemma_match_waits(
    h: Heap,
    b: usize,
    w0: WhnfView,
    w: WhnfView,
    patterns: Seq<MatcherView>,
    keeps: bool,
    can_stuck: bool,
    stuck: Option<MetaId>,
    fuel: nat,
    e: Effects,
    rule: RuleView,
    i: nat,
    j: nat,
)
    requires
        coherent(h, b),
        all_of(h, b, patterns),
        h.binds[b as int].rules.contains(rule),
        alike_forms(w0, w),
        waiting(patterns, rule, i),
        fits_at(h, keeps, w0, rule.pattern, i, j),
    ensures
        match pattern_match(h, w, patterns, keeps, can_stuck, stuck, fuel, e) {
            Ok((MatchView::Open { patterns: left, .. }, _)) => {
                &&& all_of(h, b, left)
                &&& waiting(left, rule, j)
                &&& unfinished(rule.pattern, j)
            },
            _ => true,
        },
    decreases fuel, 1nat, 0nat,
{
    if fuel > 0 {
        match w.head {
            Head::Meta(_) => {
                lemma_survivors_wait(patterns, rule, i);
                lemma_survivors_of(h, b, patterns);
            },
            Head::Var(var) => {
                if h.assigned(w.term.base) {
                    let none = Seq::<MatcherView>::empty();
                    let q = choose|q: int|
                        0 <= q < patterns.len() && (#[trigger] patterns[q]).rule == rule
                            && patterns[q].position == i;
                    lemma_offer_waits(
                        h,
                        b,
                        w.term,
                        var,
                        patterns,
                        none,
                        None,
                        patterns.len(),
                        e,
                        rule,
                        i,
                        q,
                    );
                    match offer(h, w.term, var, patterns, none, None, patterns.len(), e) {
                        Ok((OfferView::Open { patterns: left, recursive, ordering }, e2)) => {
                            let children = match ordering {
                                None => Seq::empty(),
                                Some(c) => c,
                            };
                            let less = (fuel - 1) as nat;
                            if rule.pattern[i as int] is Some {
                                lemma_visit_waits(
                                    h,
                                    b,
                                    w0.term,
                                    w.term,
                                    children,
                                    0,
                                    recursive,
                                    keeps,
                                    can_stuck,
                                    stuck,
                                    less,
                                    e2,
                                    rule,
                                    i + 1,
                                    j,
                                );
                            } else {
                                lemma_visit_of(
                                    h,
                                    b,
                                    w.term,
                                    children,
                                    0,
                                    recursive,
                                    keeps,
                                    can_stuck,
                                    stuck,
                                    less,
                                    e2,
                                );
                            }
                            match visit(
                                h,
                                w.term,
                                children,
                                0,
                                recursive,
                                keeps,
                                can_stuck,
                                stuck,
                                less,
                                e2,
                            ) {
                                Ok((MatchView::Open { patterns: more, .. }, _)) => {
                                    let all = left + more;
                                    assert forall|z: int| 0 <= z < all.len() implies h.binds[b as int].rules.contains(
                                    (#[trigger] all[z]).rule) by {
                                        if z < left.len() {
                                            assert(all[z] == left[z]);
                                        } else {
                                            assert(all[z] == more[z - left.len()]);
                                        }
                                    }
                                    if rule.pattern[i as int] is Some {
                                        let z = choose|z: int|
                                            0 <= z < more.len() && (#[trigger] more[z]).rule == rule
                                                && more[z].position == j;
                                        assert(all[left.len() + z] == more[z]);
                                    } else {
                                        let z = choose|z: int|
                                            0 <= z < left.len() && (#[trigger] left[z]).rule == rule
                                                && left[z].position == j;
                                        assert(all[z] == left[z]);
                                    }
                                },
                                _ => {},
                            }
                        },
                        _ => {},
                    }
                }
            },
        }
    }
}

/// Matching leaves matchers of the same rules.
proof fn lemma_visit_of(
    h: Heap,
    b: usize,
    t: TermView,
    children: Seq<usize>,
    k: nat,
    patterns: Seq<MatcherView>,
    keeps: bool,
    can_stuck: bool,
    stuck: Option<MetaId>,
    fuel: nat,
    e: Effects,
)
    requires
        all_of(h, b, patterns),
    ensures
        visit(h, t, children, k, patterns, keeps, can_stuck, stuck, fuel, e) matches Ok(
            (MatchView::Open { patterns: left, .. }, _),
        ) ==> all_of(h, b, left),
    decreases fuel + 1, 0nat, children.len() - k,
{
    if k < children.len() && e.can_draw(2) {
        let c = children[k as int] as int;
        let entry = vars_entry(e.next, (e.next + STRIDE) as u64);
        if has_arg(h, t, c) {
            let e2 = e.plus(2, links(arg_bindings(h, t, c)));
            match whnf(h, argument(h, t, c, entry), true, keeps, fuel, e2) {
                Err(_) => {},
                Ok((w, e3)) => {
                    lemma_match_of(h, b, w, patterns, keeps, can_stuck, stuck, fuel, e3);
                    match pattern_match(h, w, patterns, keeps, can_stuck, stuck, fuel, e3) {
                        Ok((MatchView::Open { patterns: left, stuck: z }, e4)) => {
                            lemma_visit_of(
                                h,
                                b,
                                t,
                                children,
                                k + 1,
                                left,
                                keeps,
                                can_stuck,
                                z,
                                fuel,
                                e4,
                            );
                        },
                        _ => {},
                    }
                },
            }
        }
    }
}

proof fn lemma_offer_of(
    h: Heap,
    b: usize,
    t: TermView,
    var: Var,
    patterns: Seq<MatcherView>,
    recursive: Seq<MatcherView>,
    ordering: Option<Seq<usize>>,
    n: nat,
    e: Effects,
)
    requires
        n <= patterns.len(),
        all_of(h, b, patterns),
        all_of(h, b, recursive),
    ensures
        offer(h, t, var, patterns, recursive, ordering, n, e) matches Ok(
            (OfferView::Open { patterns: ps, recursive: rs, .. }, _),
        ) ==> all_of(h, b, ps) && all_of(h, b, rs),
    decreases n,
{
    if n > 0 {
        let k = n - 1;
        let m = patterns[k];
        assert(h.binds[b as int].rules.contains(m.rule));
        if m.more() {
            match m.front() {
                None => {
                    let ps = patterns.update(k, m.advanced());
                    assert(all_of(h, b, ps));
                    lemma_offer_of(h, b, t, var, ps, recursive, ordering, k as nat, e);
                },
                Some(symbol) => {
                    let ps = patterns.remove(k);
                    assert forall|z: int| 0 <= z < ps.len() implies h.binds[b as int].rules.contains(
                    (#[trigger] ps[z]).rule) by {
                        if z < k {
                            assert(ps[z] == patterns[z]);
                        } else {
                            assert(ps[z] == patterns[z + 1]);
                        }
                    }
                    let r = m.bound(h, t, symbol, e.next);
                    let more = recursive.push(r);
                    assert forall|z: int| 0 <= z < more.len() implies h.binds[b as int].rules.contains(
                    (#[trigger] more[z]).rule) by {
                        if z < recursive.len() {
                            assert(more[z] == recursive[z]);
                        }
                    }
                    lemma_offer_of(
                        h,
                        b,
                        t,
                        var,
                        ps,
                        more,
                        Some(symbol.children),
                        k as nat,
                        e.plus(2, links(symbol.bindings)),
                    );
                    lemma_offer_of(h, b, t, var, ps, recursive, ordering, k as nat, e);
                },
            }
        }
    }
}

proof fn lemma_match_of(
    h: Heap,
    b: usize,
    w: WhnfView,
    patterns: Seq<MatcherView>,
    keeps: bool,
    can_stuck: bool,
    stuck: Option<MetaId>,
    fuel: nat,
    e: Effects,
)
    requires
        all_of(h, b, patterns),
    ensures
        pattern_match(h, w, patterns, keeps, can_stuck, stuck, fuel, e) matches Ok(
            (MatchView::Open { patterns: left, .. }, _),
        ) ==> all_of(h, b, left),
    decreases fuel, 1nat, 0nat,
{
    if fuel > 0 {
        match w.head {
            Head::Meta(_) => {
                lemma_survivors_of(h, b, patterns);
            },
            Head::Var(var) => {
                if h.assigned(w.term.base) {
                    let none = Seq::<MatcherView>::empty();
                    lemma_offer_of(h, b, w.term, var, patterns, none, None, patterns.len(), e);
                    match offer(h, w.term, var, patterns, none, None, patterns.len(), e) {
                        Ok((OfferView::Open { patterns: left, recursive, ordering }, e2)) => {
                            let children = match ordering {
                                None => Seq::empty(),
                                Some(c) => c,
                            };
                            let less = (fuel - 1) as nat;
                            lemma_visit_of(
                                h,
                                b,
                                w.term,
                                children,
                                0,
                                recursive,
                                keeps,
                                can_stuck,
                                stuck,
                                less,
                                e2,
                            );
                            match visit(
                                h,
                                w.term,
                                children,
                                0,
                                recursive,
                                keeps,
                                can_stuck,
                                stuck,
                                less,
                                e2,
                            ) {
                                Ok((MatchView::Open { patterns: more, .. }, _)) => {
                                    let all = left + more;
                                    assert forall|z: int| 0 <= z < all.len() implies h.binds[b as int].rules.contains(
                                    (#[trigger] all[z]).rule) by {
                                        if z < left.len() {
                                            assert(all[z] == left[z]);
                                        } else {
                                            assert(all[z] == more[z - left.len()]);
                                        }
                                    }
                                },
                                _ => {},
                            }
                        },
                        _ => {},
                    }
                }
            },
        }
    }
}

/// Where a reduction under rules stops at a term with a variable at its head, no rule of that
/// variable matches the term: not where the variable is found, nor where the reduction is stuck.
/// The rules of the variable have the children of a symbol in one order only.
pub proof fn law_whnf_exhausts_rules(
    h: Heap,
    t: TermView,
    keeps: bool,
    fuel: nat,
    e: Effects,
    rule: RuleView,
)
    ensures
        whnf(h, t, true, keeps, fuel, e) matches Ok((w, _)) ==> (head_of(h, w.term) matches Some(v)
            ==> (v.bind < h.binds.len() && coherent(h, v.bind) && h.binds[v.bind as int].rules.contains(
            rule,
        ) ==> !rule_fits(h, keeps, w.term, rule))),
    decreases fuel,
{
    if fuel > 0 && h.assigned(t.base) {
        let a = h.metas[t.base as int].assignment->0;
        let d = a.head.0.0 as int;
        if d < t.es.len() {
            let node = t.es[d];
            match replaces(node, a.head.1) {
                Some((s, i)) => {
                    if i < s.args.len() && s.args[i] < h.metas.len() && e.can_draw(2) {
                        let entry = subst_entry(SubstView { args: a.args, es: t.es }, e.next);
                        law_whnf_exhausts_rules(
                            h,
                            substituted(h, s, i, entry),
                            keeps,
                            (fuel - 1) as nat,
                            e.plus(2, links(h.metas[s.args[i] as int].bindings)),
                            rule,
                        );
                    }
                },
                None => {
                    if node.bindings.has(a.head.1) && node.bindings.at(a.head.1) < h.binds.len() {
                        let var = var_at(node, a.head.1);
                        let rules = h.binds[var.bind as int].rules;
                        lemma_head_var(h, t);
                        if rules.len() > 0 {
                            let done = WhnfView { term: t, head: Head::Var(var) };
                            let start = initial(rules, t.es.skip(d));
                            let can = h.metas[t.base as int].from_original_problem;
                            let less = (fuel - 1) as nat;
                            match pattern_match(h, done, start, keeps, can, None, less, e) {
                                Ok((MatchView::Found { term, rule: r, .. }, e2)) => {
                                    law_whnf_exhausts_rules(
                                        h,
                                        term,
                                        keeps,
                                        less,
                                        e2.noting(keeps, r),
                                        rule,
                                    );
                                },
                                Ok((MatchView::Open { .. }, _)) => {
                                    if coherent(h, var.bind) && rules.contains(rule) && rule_fits(
                                        h, keeps,
                                        t,
                                        rule,
                                    ) {
                                        let k = choose|k: int|
                                            0 <= k < rules.len() && rules[k] == rule;
                                        assert(start[k].rule == rule && start[k].position == 0);
                                        assert forall|z: int| 0 <= z < start.len() implies rules.contains(
                                        (#[trigger] start[z]).rule) by {
                                            assert(start[z].rule == rules[z]);
                                        }
                                        lemma_alike_same(t.es);
                                        lemma_match_waits(
                                            h,
                                            var.bind,
                                            done,
                                            done,
                                            start,
                                            keeps,
                                            can,
                                            None,
                                            less,
                                            e,
                                            rule,
                                            0,
                                            rule.pattern.len(),
                                        );
                                        assert(false);
                                    }
                                },
                                Err(_) => {},
                            }
                        } else if rules.contains(rule) {
                            assert(false);
                        }
                    }
                },
            }
        }
    }
}

} // verus!
