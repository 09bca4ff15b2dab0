//! What it is for two terms to be equal, and for a term to reduce to another, as relations between
//! terms.
use crate::data::{
    EntryView, MetaId, NodeView, RuleView, SubstView, SymbolView, TermView, Var,
};
use crate::index::{Index, Slots};
use crate::memory::Heap;
use crate::settled::{drawn, grows};
use crate::term::MatcherView;
use vstd::prelude::*;

verus! {

/// Holds of anything: names a witness.
pub open spec fn any<T>(x: T) -> bool {
    true
}

/// Whether the identifier `id` occurs nowhere in `es`.
pub open spec fn absent(id: u64, es: Seq<NodeView>) -> bool
    decreases es,
{
    forall|i: int|
        #![trigger es[i]]
        0 <= i < es.len() ==> {
            &&& es[i].entry.params_id != id
            &&& es[i].entry.lets_id != id
            &&& es[i].entry.subst matches Some(s) ==> absent(id, s.es)
        }
}

/// `es` with a node before it, unless the node binds nothing.
pub open spec fn put(es: Seq<NodeView>, node: NodeView) -> Seq<NodeView> {
    if node.bindings.params.len() == 0 && node.bindings.lets.len() == 0 {
        es
    } else {
        seq![node] + es
    }
}

/// A node that substitutes `args`, which stand in `es`, for the parameters of `bindings`.
pub open spec fn binding(
    bindings: Slots<usize>,
    args: Seq<MetaId>,
    es: Seq<NodeView>,
    params_id: u64,
    lets_id: u64,
) -> NodeView {
    NodeView {
        entry: EntryView {
            params_id,
            lets_id,
            subst: Some(SubstView { args, es }),
            context: None,
        },
        bindings,
    }
}

/// A node that leaves the variables of `bindings` as they are.
pub open spec fn unbound(bindings: Slots<usize>, params_id: u64, lets_id: u64) -> NodeView {
    NodeView {
        entry: EntryView { params_id, lets_id, subst: None, context: None },
        bindings,
    }
}

/// The arguments of `t`, which has an assignment.
pub open spec fn arguments(h: Heap, t: TermView) -> Seq<MetaId> {
    h.metas[t.base as int].assignment->0.args
}

/// The variable at the head of `t`: the head of its assignment, where nothing is substituted for
/// it.
pub open spec fn head_of(h: Heap, t: TermView) -> Option<Var> {
    if t.base < h.metas.len() {
        match h.metas[t.base as int].assignment {
            None => None,
            Some(a) => if a.head.0.0 < t.es.len() {
                let node = t.es[a.head.0.0 as int];
                match a.head.1 {
                    Index::Param(i) => if node.entry.subst is None && i
                        < node.bindings.params.len() {
                        Some(
                            Var {
                                entry_id: node.entry.params_id,
                                index: Index::Param(i),
                                bind: node.bindings.params[i as int],
                            },
                        )
                    } else {
                        None
                    },
                    Index::Let(i) => if i < node.bindings.lets.len() {
                        Some(
                            Var {
                                entry_id: node.entry.lets_id,
                                index: Index::Let(i),
                                bind: node.bindings.lets[i as int],
                            },
                        )
                    } else {
                        None
                    },
                }
            } else {
                None
            },
        }
    } else {
        None
    }
}

/// Whether `t` comes of `s` by putting what is substituted for the head of `s` in its place. The
/// arguments of `s` are substituted for the parameters of `t`, under new identifiers.
pub open spec fn unfolds(h: Heap, s: TermView, t: TermView) -> bool {
    exists|x: u64, y: u64| #[trigger] unfolds_as(h, s, t, x, y)
}

/// Whether `t` comes of `s` by putting what is substituted for the head of `s` in its place, with
/// the new identifiers `x` and `y`.
pub open spec fn unfolds_as(h: Heap, s: TermView, t: TermView, x: u64, y: u64) -> bool {
    &&& s.base < h.metas.len()
    &&& h.metas[s.base as int].assignment matches Some(a)
    &&& a.head.0.0 < s.es.len()
    &&& a.head.1 matches Index::Param(i)
    &&& s.es[a.head.0.0 as int].entry.subst matches Some(sub)
    &&& i < sub.args.len()
    &&& t.base == sub.args[i as int]
    &&& t.base < h.metas.len()
    &&& t.es == put(sub.es, binding(h.metas[t.base as int].bindings, a.args, s.es, x, y))
    &&& x != y && absent(x, s.es) && absent(y, s.es)
}

/// The `i`th argument of `t`, with its own variables left as they are, under the identifiers `id`
/// and `lets_id`.
pub open spec fn entered(h: Heap, t: TermView, i: int, id: u64, lets_id: u64) -> TermView {
    let m = arguments(h, t)[i];
    TermView { base: m, es: put(t.es, unbound(h.metas[m as int].bindings, id, lets_id)) }
}

/// Whether `t` has an assignment with an argument `i`.
pub open spec fn has_argument(h: Heap, t: TermView, i: int) -> bool {
    &&& t.base < h.metas.len()
    &&& h.metas[t.base as int].assignment is Some
    &&& 0 <= i < arguments(h, t).len()
    &&& arguments(h, t)[i] < h.metas.len()
}

/// Whether `s` reduces to `t`, with a derivation of depth `n`.
pub open spec fn reaches(h: Heap, s: TermView, t: TermView, n: nat) -> bool
    decreases n, 0nat, 0int, 0nat,
{
    s == t || (n > 0 && exists|u: TermView| #[trigger]
        any(u) && goes_over(h, s, u, t, (n - 1) as nat))
}

/// Whether `s` comes to `u` in one step, which reduces to `t`.
pub open spec fn goes_over(h: Heap, s: TermView, u: TermView, t: TermView, n: nat) -> bool
    decreases n, 4nat, 0int, 0nat,
{
    (unfolds(h, s, u) || fires(h, s, u, n)) && reaches(h, u, t, n)
}

/// Whether a rule of the head of `s` takes `s` to `u`.
pub open spec fn fires(h: Heap, s: TermView, u: TermView, n: nat) -> bool
    decreases n, 3nat, 0int, 0nat,
{
    exists|rule: RuleView| #[trigger] any(rule) && fires_by(h, s, rule, u, n)
}

/// Whether `rule`, which is a rule of the head of `s`, takes `s` to `u`: the pattern matches to its
/// end, and `u` is the replacement, in which the symbols of the pattern bind what they have
/// matched.
pub open spec fn fires_by(h: Heap, s: TermView, rule: RuleView, u: TermView, n: nat) -> bool
    decreases n, 2nat, 0int, 0nat,
{
    &&& head_of(h, s) matches Some(v)
    &&& v.bind < h.binds.len()
    &&& h.binds[v.bind as int].rules.contains(rule)
    &&& takes(
        h,
        v.bind,
        s,
        MatcherView {
            rule,
            position: 0,
            replacement: TermView {
                base: rule.replacement,
                es: s.es.skip(h.metas[s.base as int].assignment->0.head.0.0 as int),
            },
        },
        MatcherView { rule, position: rule.pattern.len(), replacement: u },
        n,
    )
}

/// Whether matching `s` takes the matcher `m` to `m2`. The next element of the pattern stands for
/// anything, or it is a symbol: then `s` reduces to a term with that symbol at its head, and the
/// following elements match the children.
pub open spec fn takes(
    h: Heap,
    b: usize,
    s: TermView,
    m: MatcherView,
    m2: MatcherView,
    n: nat,
) -> bool
    decreases n, 1nat, m.rule.pattern.len() - m.position, 1nat,
{
    &&& m.position < m2.position <= m.rule.pattern.len()
    &&& m2.rule == m.rule
    &&& m2.replacement.base == m.replacement.base
    &&& match m.rule.pattern[m.position as int] {
        None => m2.position == m.position + 1 && m2.replacement == m.replacement,
        Some(symbol) => exists|u: TermView, m1: MatcherView, children: Seq<usize>| #[trigger]
            any((u, m1, children)) && takes_at(h, b, s, u, symbol, m, m1, children, m2, n),
    }
}

/// Whether `s` reduces to `u`, which has the symbol at its head, and matching its children takes
/// the matcher from `m1`, which is `m` with the symbol met, to `m2`.
pub open spec fn takes_at(
    h: Heap,
    b: usize,
    s: TermView,
    u: TermView,
    symbol: SymbolView,
    m: MatcherView,
    m1: MatcherView,
    children: Seq<usize>,
    m2: MatcherView,
    n: nat,
) -> bool
    decreases n, 1nat, m.rule.pattern.len() - m.position, 0nat,
{
    &&& reaches(h, s, u, n)
    &&& head_of(h, u) matches Some(v) && v.bind == symbol.bind
    &&& meets(h, u, symbol, m, m1)
    &&& ordered_as(h, b, symbol.bind, children)
    &&& m.position < m.rule.pattern.len()
    &&& m1.rule == m.rule
    &&& m1.position == m.position + 1
    &&& takes_all(h, b, u, children, 0, m1, m2, n)
}

/// Whether `children` is the order in which a rule of `b` has the children of the symbol `bind`.
pub open spec fn ordered_as(h: Heap, b: usize, bind: usize, children: Seq<usize>) -> bool {
    exists|rule: RuleView, i: int|
        h.binds[b as int].rules.contains(rule) && 0 <= i < rule.pattern.len() && (
        #[trigger] rule.pattern[i] matches Some(s) && s.bind == bind && s.children == children)
}

/// Whether `m1` is `m` with the symbol met at the head of `u`: in the replacement the bindings of
/// the symbol stand for the arguments of `u`, under new identifiers.
pub open spec fn meets(
    h: Heap,
    u: TermView,
    symbol: SymbolView,
    m: MatcherView,
    m1: MatcherView,
) -> bool {
    exists|x: u64, y: u64| #[trigger] meets_as(h, u, symbol, m, m1, x, y)
}

/// Whether `m1` is `m` with the symbol met at the head of `u`, with the new identifiers `x` and
/// `y`.
pub open spec fn meets_as(
    h: Heap,
    u: TermView,
    symbol: SymbolView,
    m: MatcherView,
    m1: MatcherView,
    x: u64,
    y: u64,
) -> bool {
    &&& m1.rule == m.rule
    &&& m1.position == m.position + 1
    &&& m1.replacement.base == m.replacement.base
    &&& m1.replacement.es == put(
        m.replacement.es,
        binding(symbol.bindings, arguments(h, u), u.es, x, y),
    )
    &&& x != y && absent(x, u.es) && absent(y, u.es)
    &&& absent(x, m.replacement.es) && absent(y, m.replacement.es)
}

/// Whether matching the arguments of `u` that `children` lists, from the `k`th on, takes the
/// matcher `m` to `m2`. What comes after the end of the pattern is not looked at.
pub open spec fn takes_all(
    h: Heap,
    b: usize,
    u: TermView,
    children: Seq<usize>,
    k: nat,
    m: MatcherView,
    m2: MatcherView,
    n: nat,
) -> bool
    decreases n, 1nat, m.rule.pattern.len() - m.position, 3nat,
{
    if k >= children.len() || m.position >= m.rule.pattern.len() {
        m2 == m
    } else {
        exists|t: TermView, m1: MatcherView| #[trigger]
            any((t, m1)) && takes_next(h, b, u, children, k, m, t, m1, m2, n)
    }
}

/// Whether the `k`th of the children is `t`, and matching it takes the matcher from `m` to `m1`,
/// from where the other children take it to `m2`.
pub open spec fn takes_next(
    h: Heap,
    b: usize,
    u: TermView,
    children: Seq<usize>,
    k: nat,
    m: MatcherView,
    t: TermView,
    m1: MatcherView,
    m2: MatcherView,
    n: nat,
) -> bool
    decreases n, 1nat, m.rule.pattern.len() - m.position, 2nat,
{
    &&& has_argument(h, u, children[k as int] as int)
    &&& is_entered(h, u, children[k as int] as int, t)
    &&& takes(h, b, t, m, m1, n)
    &&& m.position < m1.position <= m.rule.pattern.len()
    &&& m1.rule == m.rule
    &&& takes_all(h, b, u, children, k + 1, m1, m2, n)
}

/// Whether `t` is the `i`th argument of `u`, under new identifiers.
pub open spec fn is_entered(h: Heap, u: TermView, i: int, t: TermView) -> bool {
    exists|x: u64, y: u64|
        x != y && absent(x, u.es) && absent(y, u.es) && t == #[trigger] entered(h, u, i, x, y)
}

/// Whether `s` and `t` are equal, with a derivation of depth `n`: they reduce to terms with the
/// same variable at the head, and all arguments are equal.
pub open spec fn equal(h: Heap, s: TermView, t: TermView, n: nat) -> bool
    decreases n, 0nat,
{
    n > 0 && exists|u: TermView, v: TermView| #[trigger]
        any((u, v)) && equal_over(h, s, t, u, v, (n - 1) as nat)
}

/// Whether `s` and `t` reduce to `u` and `v`, which have the same variable at the head, and equal
/// arguments.
pub open spec fn equal_over(
    h: Heap,
    s: TermView,
    t: TermView,
    u: TermView,
    v: TermView,
    n: nat,
) -> bool
    decreases n, 3nat,
{
    &&& reaches(h, s, u, n)
    &&& reaches(h, t, v, n)
    &&& same_variable(h, u, v)
    &&& forall|i: int|
        #[trigger] any(i) && 0 <= i < arguments(h, u).len() ==> equal_args(h, u, v, i, n)
}

/// Whether `u` and `v` have the same variable at the head.
pub open spec fn same_variable(h: Heap, u: TermView, v: TermView) -> bool {
    &&& head_of(h, u) matches Some(x)
    &&& head_of(h, v) matches Some(y)
    &&& x.entry_id == y.entry_id
    &&& x.index == y.index
}

/// Whether the `i`th arguments of `u` and `v` are equal, where both have the same variables of
/// their own, which are none of those of `u` and `v`.
pub open spec fn equal_args(h: Heap, u: TermView, v: TermView, i: int, n: nat) -> bool
    decreases n, 2nat,
{
    &&& has_argument(h, u, i)
    &&& has_argument(h, v, i)
    &&& exists|id: u64, x: u64, y: u64| #[trigger]
        any((id, x, y)) && equal_under(h, u, v, i, id, x, y, n)
}

/// Whether the `i`th arguments of `u` and `v` are equal, where their own parameters are known by
/// `id`, and their own let declarations by `x` and `y`.
pub open spec fn equal_under(
    h: Heap,
    u: TermView,
    v: TermView,
    i: int,
    id: u64,
    x: u64,
    y: u64,
    n: nat,
) -> bool
    decreases n, 1nat,
{
    &&& x != y && x != id && y != id
    &&& absent(id, u.es) && absent(x, u.es) && absent(y, u.es)
    &&& absent(id, v.es) && absent(x, v.es) && absent(y, v.es)
    &&& equal(h, entered(h, u, i, id, x), entered(h, v, i, id, y), n)
}

/// Whether `s` and `t` differ, with a derivation of depth `n`: they reduce to terms with different
/// variables at the head, or with the same variable and arguments that differ.
pub open spec fn differ(h: Heap, s: TermView, t: TermView, n: nat) -> bool
    decreases n, 0nat,
{
    n > 0 && exists|u: TermView, v: TermView| #[trigger]
        any((u, v)) && differ_over(h, s, t, u, v, (n - 1) as nat)
}

/// Whether `s` and `t` reduce to `u` and `v`, which have different variables at the head, or the
/// same variable and arguments that differ.
pub open spec fn differ_over(
    h: Heap,
    s: TermView,
    t: TermView,
    u: TermView,
    v: TermView,
    n: nat,
) -> bool
    decreases n, 2nat,
{
    &&& reaches(h, s, u, n)
    &&& reaches(h, t, v, n)
    &&& head_of(h, u) is Some
    &&& head_of(h, v) is Some
    &&& !same_variable(h, u, v) || exists|i: int, id: u64, x: u64, y: u64| #[trigger]
        any((i, id, x, y)) && differ_under(h, u, v, i, id, x, y, n)
}

/// Whether the `i`th arguments of `u` and `v` differ, where their own parameters are known by `id`,
/// and their own let declarations by `x` and `y`.
pub open spec fn differ_under(
    h: Heap,
    u: TermView,
    v: TermView,
    i: int,
    id: u64,
    x: u64,
    y: u64,
    n: nat,
) -> bool
    decreases n, 1nat,
{
    &&& has_argument(h, u, i)
    &&& has_argument(h, v, i)
    &&& x != y && x != id && y != id
    &&& absent(id, u.es) && absent(x, u.es) && absent(y, u.es)
    &&& absent(id, v.es) && absent(x, v.es) && absent(y, v.es)
    &&& differ(h, entered(h, u, i, id, x), entered(h, v, i, id, y), n)
}

/// An identifier that is yet to be drawn occurs nowhere.
pub proof fn lemma_absent(id: u64, es: Seq<NodeView>, next: u64)
    requires
        drawn(es, next),
        next <= id,
    ensures
        absent(id, es),
    decreases es,
{
    assert forall|i: int|
        #![trigger es[i]]
        0 <= i < es.len() implies {
        &&& es[i].entry.params_id != id
        &&& es[i].entry.lets_id != id
        &&& es[i].entry.subst matches Some(s) ==> absent(id, s.es)
    } by {
        if let Some(s) = es[i].entry.subst {
            lemma_absent(id, s.es, next);
        }
    }
}

proof fn lemma_base_kept(h: Heap, g: Heap, x: int)
    requires
        grows(h, g),
        0 <= x < h.metas.len(),
    ensures
        g.metas[x].bindings == h.metas[x].bindings,
        h.metas[x].assignment matches Some(a) ==> (g.metas[x].assignment matches Some(b) && b.head
            == a.head && b.args == a.args && b.bind == a.bind),
{
}

/// What is found at the head of a term stays there.
pub proof fn lemma_head_kept(h: Heap, g: Heap, t: TermView)
    requires
        grows(h, g),
        head_of(h, t) is Some,
    ensures
        head_of(g, t) == head_of(h, t),
        arguments(g, t) == arguments(h, t),
        g.metas[t.base as int].assignment is Some,
{
    lemma_base_kept(h, g, t.base as int);
}

proof fn lemma_argument_kept(h: Heap, g: Heap, t: TermView, i: int)
    requires
        grows(h, g),
        has_argument(h, t, i),
    ensures
        has_argument(g, t, i),
        forall|x: u64, y: u64| #[trigger] entered(g, t, i, x, y) == entered(h, t, i, x, y),
{
    lemma_base_kept(h, g, t.base as int);
    lemma_base_kept(h, g, arguments(h, t)[i] as int);
}

/// Reductions stay as they are under further assignments, and at greater depths.
pub proof fn lemma_reaches_kept(h: Heap, g: Heap, s: TermView, t: TermView, n: nat, k: nat)
    requires
        grows(h, g),
        n <= k,
        reaches(h, s, t, n),
    ensures
        reaches(g, s, t, k),
    decreases n, 0nat, 0int, 0nat,
{
    if s != t {
        let u = choose|u: TermView| #[trigger] any(u) && goes_over(h, s, u, t, (n - 1) as nat);
        let (l, m) = ((n - 1) as nat, (k - 1) as nat);
        assert(goes_over(h, s, u, t, l));
        if unfolds(h, s, u) {
            let (x, y) = choose|x: u64, y: u64| #[trigger] unfolds_as(h, s, u, x, y);
            lemma_base_kept(h, g, s.base as int);
            lemma_base_kept(h, g, u.base as int);
            assert(unfolds_as(g, s, u, x, y));
        } else {
            let rule = choose|rule: RuleView| #[trigger] any(rule) && fires_by(h, s, rule, u, l);
            let v = head_of(h, s)->0;
            lemma_head_kept(h, g, s);
            lemma_base_kept(h, g, s.base as int);
            let m1 = MatcherView {
                rule,
                position: 0,
                replacement: TermView {
                    base: rule.replacement,
                    es: s.es.skip(h.metas[s.base as int].assignment->0.head.0.0 as int),
                },
            };
            let m2 = MatcherView { rule, position: rule.pattern.len(), replacement: u };
            lemma_takes_kept(h, g, v.bind, s, m1, m2, l, m);
            assert(any(rule));
        assert(fires_by(g, s, rule, u, m));
        }
        lemma_reaches_kept(h, g, u, t, l, m);
        assert(any(u));
        assert(goes_over(g, s, u, t, m));
    }
}

proof fn lemma_takes_kept(
    h: Heap,
    g: Heap,
    b: usize,
    s: TermView,
    m: MatcherView,
    m2: MatcherView,
    n: nat,
    k: nat,
)
    requires
        grows(h, g),
        n <= k,
        takes(h, b, s, m, m2, n),
    ensures
        takes(g, b, s, m, m2, k),
    decreases n, 1nat, m.rule.pattern.len() - m.position, 1nat,
{
    if let Some(symbol) = m.rule.pattern[m.position as int] {
        let (u, m1, children) = choose|u: TermView, m1: MatcherView, children: Seq<usize>| #[trigger]
            any((u, m1, children)) && takes_at(h, b, s, u, symbol, m, m1, children, m2, n);
        lemma_reaches_kept(h, g, s, u, n, k);
        lemma_head_kept(h, g, u);
        let (x, y) = choose|x: u64, y: u64| #[trigger] meets_as(h, u, symbol, m, m1, x, y);
        assert(meets_as(g, u, symbol, m, m1, x, y));
        assert(ordered_as(g, b, symbol.bind, children));
        lemma_takes_all_kept(h, g, b, u, children, 0, m1, m2, n, k);
        assert(any((u, m1, children)));
        assert(takes_at(g, b, s, u, symbol, m, m1, children, m2, k));
    }
}

proof fn lemma_takes_all_kept(
    h: Heap,
    g: Heap,
    b: usize,
    u: TermView,
    children: Seq<usize>,
    c: nat,
    m: MatcherView,
    m2: MatcherView,
    n: nat,
    k: nat,
)
    requires
        grows(h, g),
        n <= k,
        takes_all(h, b, u, children, c, m, m2, n),
    ensures
        takes_all(g, b, u, children, c, m, m2, k),
    decreases n, 1nat, m.rule.pattern.len() - m.position, 3nat,
{
    if c < children.len() && m.position < m.rule.pattern.len() {
        let (t, m1) = choose|t: TermView, m1: MatcherView| #[trigger]
            any((t, m1)) && takes_next(h, b, u, children, c, m, t, m1, m2, n);
        let i = children[c as int] as int;
        lemma_argument_kept(h, g, u, i);
        let (x, y) = choose|x: u64, y: u64|
            x != y && absent(x, u.es) && absent(y, u.es) && t == #[trigger] entered(h, u, i, x, y);
        assert(t == entered(g, u, i, x, y));
        assert(is_entered(g, u, i, t));
        lemma_takes_kept(h, g, b, t, m, m1, n, k);
        lemma_takes_all_kept(h, g, b, u, children, c + 1, m1, m2, n, k);
        assert(any((t, m1)));
        assert(takes_next(g, b, u, children, c, m, t, m1, m2, k));
    }
}

/// A reduction can go on where another ends.
pub proof fn lemma_reaches_trans(h: Heap, s: TermView, t: TermView, u: TermView, n: nat, k: nat)
    requires
        reaches(h, s, t, n),
        reaches(h, t, u, k),
    ensures
        reaches(h, s, u, n + k),
    decreases n,
{
    assert(grows(h, h));
    if s == t {
        lemma_reaches_kept(h, h, s, u, k, n + k);
    } else {
        let x = choose|x: TermView| #[trigger] any(x) && goes_over(h, s, x, t, (n - 1) as nat);
        let l = (n - 1) as nat;
        assert(goes_over(h, s, x, t, l));
        lemma_reaches_trans(h, x, t, u, l, k);
        if !unfolds(h, s, x) {
            lemma_fires_deeper(h, s, x, l, l + k);
        }
        assert(any(x));
        assert(goes_over(h, s, x, u, l + k));
    }
}

proof fn lemma_fires_deeper(h: Heap, s: TermView, u: TermView, n: nat, k: nat)
    requires
        fires(h, s, u, n),
        n <= k,
    ensures
        fires(h, s, u, k),
{
    let rule = choose|rule: RuleView| #[trigger] any(rule) && fires_by(h, s, rule, u, n);
    let m1 = MatcherView {
        rule,
        position: 0,
        replacement: TermView {
            base: rule.replacement,
            es: s.es.skip(h.metas[s.base as int].assignment->0.head.0.0 as int),
        },
    };
    let m2 = MatcherView { rule, position: rule.pattern.len(), replacement: u };
    assert(grows(h, h));
    lemma_takes_kept(h, h, (head_of(h, s)->0).bind, s, m1, m2, n, k);
    assert(any(rule));
        assert(fires_by(h, s, rule, u, k));
}

/// What is equal stays equal under further assignments, and at greater depths.
pub proof fn law_equal_kept(h: Heap, g: Heap, s: TermView, t: TermView, n: nat, k: nat)
    requires
        grows(h, g),
        n <= k,
        equal(h, s, t, n),
    ensures
        equal(g, s, t, k),
    decreases n,
{
    let (l, m) = ((n - 1) as nat, (k - 1) as nat);
    let (u, v) = choose|u: TermView, v: TermView| #[trigger]
        any((u, v)) && equal_over(h, s, t, u, v, l);
    lemma_reaches_kept(h, g, s, u, l, m);
    lemma_reaches_kept(h, g, t, v, l, m);
    lemma_head_kept(h, g, u);
    lemma_head_kept(h, g, v);
    assert forall|i: int| #[trigger] any(i) && 0 <= i < arguments(g, u).len() implies equal_args(
        g,
        u,
        v,
        i,
        m,
    ) by {
        assert(equal_args(h, u, v, i, l));
        let (id, x, y) = choose|id: u64, x: u64, y: u64| #[trigger]
            any((id, x, y)) && equal_under(h, u, v, i, id, x, y, l);
        lemma_argument_kept(h, g, u, i);
        lemma_argument_kept(h, g, v, i);
        assert(entered(g, u, i, id, x) == entered(h, u, i, id, x));
        assert(entered(g, v, i, id, y) == entered(h, v, i, id, y));
        law_equal_kept(h, g, entered(h, u, i, id, x), entered(h, v, i, id, y), l, m);
        assert(any((id, x, y)));
        assert(equal_under(g, u, v, i, id, x, y, m));
    }
    assert(any((u, v)));
        assert(equal_over(g, s, t, u, v, m));
}

/// Terms that reduce to equal terms are equal.
pub proof fn law_equal_reduces(
    h: Heap,
    s: TermView,
    t: TermView,
    s2: TermView,
    t2: TermView,
    n: nat,
    k: nat,
)
    requires
        reaches(h, s, s2, n),
        reaches(h, t, t2, n),
        equal(h, s2, t2, k),
    ensures
        equal(h, s, t, n + k),
{
    assert(grows(h, h));
    law_equal_kept(h, h, s2, t2, k, n + k);
    let (l, m) = ((k - 1) as nat, (n + k - 1) as nat);
    let (u, v) = choose|u: TermView, v: TermView| #[trigger]
        any((u, v)) && equal_over(h, s2, t2, u, v, l);
    lemma_reaches_trans(h, s, s2, u, n, l);
    lemma_reaches_trans(h, t, t2, v, n, l);
    assert forall|i: int| #[trigger] any(i) && 0 <= i < arguments(h, u).len() implies equal_args(
        h,
        u,
        v,
        i,
        m,
    ) by {
        assert(equal_args(h, u, v, i, l));
        let (id, x, y) = choose|id: u64, x: u64, y: u64| #[trigger]
            any((id, x, y)) && equal_under(h, u, v, i, id, x, y, l);
        law_equal_kept(h, h, entered(h, u, i, id, x), entered(h, v, i, id, y), l, m);
        assert(any((id, x, y)));
        assert(equal_under(h, u, v, i, id, x, y, m));
    }
    assert(any((u, v)));
        assert(equal_over(h, s, t, u, v, m));
}

} // verus!
