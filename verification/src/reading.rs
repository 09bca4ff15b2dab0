//! What is read of a term: what is written reduces to what was read.
use crate::constraint::fresh;
use crate::data::{BindId, Head, MetaId, NodeView, TermView, TypeView, WhnfView};
use crate::equality::{
    absent, any, arguments, entered, head_of, lemma_absent, put, reaches, unbound,
};
use crate::es::{appended, vars_entry};
use crate::fresh::{law_whnf_drawn, lemma_drawn_appended, lemma_drawn_at};
use crate::ids::{Fault, STRIDE};
use crate::index::{Polarity, Slots};
use crate::ir::{IRLetView, IRSpineView, IRTermView};
use crate::memory::Heap;
use crate::names::{
    first_free, free_name, law_free_name, renamed, renamed_slots, suffixed, taken, with_renamed,
};
use crate::normal::law_whnf_normal;
use crate::readback::{
    binds_added, lemma_added_refl, lemma_added_trans, lemma_renamed_added, note_args,
    note_rules, read_args, read_body, read_lambda, read_meta, read_one, rules_of,
};
use crate::settled::{drawn, lemma_es_drawn_later};
use crate::soundness::law_whnf_reaches;
use crate::term::{arg_bindings, args_of, argument, has_arg, whnf, Effects};
use crate::types::codomain;
use vstd::prelude::*;

verus! {

/// Whether the names that `v` binds are those of the binds.
pub open spec fn carries(h: Heap, slots: Slots<BindId>, v: IRTermView) -> bool {
    &&& v.params.len() == slots.params.len()
    &&& v.lets.len() == slots.lets.len()
    &&& forall|i: int|
        0 <= i < v.params.len() ==> slots.params[i] < h.binds.len() && #[trigger] v.params[i]
            == h.binds[slots.params[i] as int].name
    &&& forall|i: int|
        0 <= i < v.lets.len() ==> slots.lets[i] < h.binds.len() && #[trigger] v.lets[i] == (
        IRLetView { name: h.binds[slots.lets[i] as int].name, rules: Seq::empty() })
}

/// Whether `ns` are the rules that are applied in reducing `t` and everything in it: those of `t`
/// itself, and then those of each argument of what it reduces to, from left to right.
pub open spec fn notes(h: Heap, t: TermView, fuel: nat, ns: Seq<Seq<char>>) -> bool
    decreases fuel,
{
    fuel > 0 && exists|e: Effects, w: WhnfView, e1: Effects, parts: Seq<Seq<Seq<char>>>| #[trigger]
        any((e, w, e1, parts)) && {
            &&& whnf(h, t, true, true, (fuel - 1) as nat, e) == Ok::<_, Fault>((w, e1))
            &&& e.noted.is_prefix_of(e1.noted)
            &&& ns == e1.noted.skip(e.noted.len() as int) + parts.flatten()
            &&& parts.len() == if h.assigned(w.term.base) {
                arguments(h, w.term).len()
            } else {
                0
            }
            &&& forall|i: int| #[trigger]
                any(i) && 0 <= i < parts.len() ==> exists|x: u64, y: u64| #[trigger]
                    any((x, y)) && notes(
                        h,
                        entered(h, w.term, i, x, y),
                        (fuel - 1) as nat,
                        parts[i],
                    )
        }
}

/// Whether `ns` are the rules that are applied in reducing the codomain of a type, where there is
/// one.
pub open spec fn noted_of(h: Heap, t: Option<TypeView>, ns: Seq<Seq<char>>) -> bool {
    match t {
        None => ns.len() == 0,
        Some(ty) => exists|fuel: nat| #[trigger]
            notes(h, TermView { base: ty.base.codomain, es: ty.es }, fuel, ns),
    }
}

/// What the arguments of `t` from the `i`th on leave noted.
spec fn tail_noted(
    h: Heap,
    t: TermView,
    i: nat,
    fuel: nat,
    parts: Seq<Seq<Seq<char>>>,
) -> bool {
    &&& parts.len() == arguments(h, t).len() - i
    &&& forall|k: int| #[trigger]
        any(k) && 0 <= k < parts.len() ==> exists|x: u64, y: u64| #[trigger]
            any((x, y)) && notes(h, entered(h, t, i + k, x, y), fuel, parts[k])
}

proof fn lemma_notes(h: Heap, t: TermView, fuel: nat, e: Effects)
    ensures
        note_rules(h, t, fuel, e) matches Ok(e2) ==> e.noted.is_prefix_of(e2.noted) && notes(
            h,
            t,
            fuel,
            e2.noted.skip(e.noted.len() as int),
        ),
    decreases fuel, 1nat, 0nat,
{
    if let Ok(e2) = note_rules(h, t, fuel, e) {
        let less = (fuel - 1) as nat;
        law_whnf_normal(h, t, true, true, less, e);
        let (w, e1) = whnf(h, t, true, true, less, e)->Ok_0;
        let ns = e2.noted.skip(e.noted.len() as int);
        let own = e1.noted.skip(e.noted.len() as int);
        if h.assigned(w.term.base) {
            let parts = lemma_notes_args(h, w.term, 0, less, e1);
            assert forall|i: int| #[trigger] any(i) && 0 <= i < parts.len() implies exists|
                x: u64,
                y: u64,
            | #[trigger]
                any((x, y)) && notes(h, entered(h, w.term, i, x, y), less, parts[i]) by {
                let (x, y) = choose|x: u64, y: u64| #[trigger]
                    any((x, y)) && notes(h, entered(h, w.term, 0 + i, x, y), less, parts[i]);
                assert(any((x, y)));
            }
            assert(e2.noted =~= e1.noted + parts.flatten());
            assert(ns =~= own + parts.flatten());
            assert(any((e, w, e1, parts)));
        } else {
            let parts = Seq::<Seq<Seq<char>>>::empty();
            assert(ns =~= own + parts.flatten());
            assert(any((e, w, e1, parts)));
        }
    }
}

proof fn lemma_notes_args(h: Heap, t: TermView, i: nat, fuel: nat, e: Effects) -> (parts: Seq<
    Seq<Seq<char>>,
>)
    requires
        h.assigned(t.base),
        i <= args_of(h, t.base).len(),
        note_args(h, t, i, fuel, e) is Ok,
    ensures
        tail_noted(h, t, i, fuel, parts),
        note_args(h, t, i, fuel, e)->Ok_0.noted == e.noted + parts.flatten(),
    decreases fuel + 1, 0nat, args_of(h, t.base).len() - i,
{
    let e3 = note_args(h, t, i, fuel, e)->Ok_0;
    if i == args_of(h, t.base).len() {
        let parts = Seq::<Seq<Seq<char>>>::empty();
        assert(e3.noted =~= e.noted + parts.flatten());
        parts
    } else {
        let (x, y) = (e.next, (e.next + STRIDE) as u64);
        let arg = argument(h, t, i as int, vars_entry(x, y));
        let e1 = e.plus(2, crate::es::links(arg_bindings(h, t, i as int)));
        lemma_notes(h, arg, fuel, e1);
        let e2 = note_rules(h, arg, fuel, e1)->Ok_0;
        let rest = lemma_notes_args(h, t, i + 1, fuel, e2);
        let first = e2.noted.skip(e1.noted.len() as int);
        let parts = seq![first] + rest;
        assert(arg == entered(h, t, i as int, x, y));
        assert(parts.drop_first() =~= rest);
        assert(parts.flatten() == first + rest.flatten());
        assert(e2.noted =~= e1.noted + first);
        assert(e3.noted =~= e.noted + parts.flatten());
        assert forall|k: int| #[trigger] any(k) && 0 <= k < parts.len() implies exists|
            x2: u64,
            y2: u64,
        | #[trigger]
            any((x2, y2)) && notes(h, entered(h, t, i + k, x2, y2), fuel, parts[k]) by {
            if k == 0 {
                assert(any((x, y)));
            } else {
                assert(any(k - 1));
                let (x2, y2) = choose|x2: u64, y2: u64| #[trigger]
                    any((x2, y2)) && notes(
                        h,
                        entered(h, t, i + 1 + (k - 1), x2, y2),
                        fuel,
                        rest[k - 1],
                    );
                assert(parts[k] == rest[k - 1]);
                assert(i + 1 + (k - 1) == i + k);
                assert(any((x2, y2)));
            }
        }
        parts
    }
}

/// The rules that are noted for a type are those that are applied in reducing its codomain and
/// everything in it.
pub proof fn law_rules_noted(h: Heap, t: Option<TypeView>, fuel: nat, next: u64)
    ensures
        rules_of(h, t, fuel, next) matches Ok((ns, _)) ==> noted_of(h, t, ns),
{
    if let Some(ty) = t {
        lemma_notes(h, codomain(ty), fuel, fresh(next));
        if let Ok((ns, _)) = rules_of(h, t, fuel, next) {
            assert(ns.skip(0) =~= ns);
            assert(notes(h, TermView { base: ty.base.codomain, es: ty.es }, fuel, ns));
        }
    }
}

/// Whether rules are applied, and how deep a reduction may be.
pub struct Manner {
    pub rules: bool,
    pub depth: nat,
}

/// Whether `v` says what the term `t` is, which binds the variables `slots`: `v` binds their names,
/// notes the rules that the type of `t` takes, and `t` reduces to what the spine of `v` says.
pub open spec fn says(h: Heap, t: TermView, slots: Slots<BindId>, v: IRTermView, q: Manner) -> bool
    decreases v, 1nat,
{
    &&& carries(h, slots, v)
    &&& noted_of(h, h.metas[t.base as int].typ, v.goal_rules)
    &&& exists|u: TermView| #[trigger]
        any(u) && reaches(h, t, u, q.depth) && spine_says(h, u, v.spine, q)
}

/// Whether the spine `s` says what the term `u` is: the head of `u`, applied to what its arguments
/// are, or a metavariable that is in the way of further reduction.
pub open spec fn spine_says(h: Heap, u: TermView, s: IRSpineView, q: Manner) -> bool
    decreases s, 1nat,
{
    ||| {
        &&& head_of(h, u) matches Some(v)
        &&& v.bind < h.binds.len()
        &&& s.head == h.binds[v.bind as int].name
        &&& args_say(h, u.es, arguments(h, u), s.args, q)
        &&& exists|g: Heap| #[trigger]
            binds_added(h, g) && noted_of(
                g,
                h.metas[u.base as int].assignment->0.var_type,
                s.premise_rules,
            )
    }
    ||| exists|m: MetaId| #[trigger] any(m) && names_meta(h, u, m, s, q)
}

/// Whether the spine `s` names the metavariable `m`, which is in the way of reducing `u`. It is at
/// the head of `u`, unless rules are applied there. It is applied to what is substituted for its
/// parameters.
pub open spec fn names_meta(h: Heap, u: TermView, m: MetaId, s: IRSpineView, q: Manner) -> bool
    decreases s, 0nat,
{
    &&& m < h.metas.len()
    &&& h.metas[m as int].assignment is None
    &&& s.premise_rules.len() == 0
    &&& u.base == m || (q.rules && head_of(h, u) is Some)
    &&& h.metas[m as int].typ matches Some(t)
    &&& s.head == "?&NoBreak;"@ + h.binds[t.bind as int].name
    &&& if h.metas[m as int].bindings.params.len() == 0 || u.es[0].entry.subst is None {
        s.args.len() == 0
    } else {
        let sub = u.es[0].entry.subst->0;
        args_say(h, sub.es, sub.args, s.args, q)
    }
}

/// Whether `ts` say what the terms `ms` are in the context `es`, one for each.
pub open spec fn args_say(
    h: Heap,
    es: Seq<NodeView>,
    ms: Seq<MetaId>,
    ts: Seq<IRTermView>,
    q: Manner,
) -> bool
    decreases ts, 0nat,
{
    &&& ts.len() == ms.len()
    &&& forall|i: int| #[trigger] any(i) && 0 <= i < ts.len() ==> arg_says(h, es, ms[i], ts[i], q)
}

/// Whether `t` says what the term `m` is in the context `es`, where the variables that `m` binds
/// are copied under names that are not in use there.
pub open spec fn arg_says(h: Heap, es: Seq<NodeView>, m: MetaId, t: IRTermView, q: Manner) -> bool
    decreases t, 2nat,
{
    exists|h1: Heap, g: Heap, slots: Slots<BindId>, x: u64, y: u64| #[trigger]
        any((h1, g, slots, x, y)) && {
            &&& binds_added(h, h1)
            &&& copies(h1, g, es, m, slots)
            &&& x != y && absent(x, es) && absent(y, es)
            &&& says(g, TermView { base: m, es: put(es, unbound(slots, x, y)) }, slots, t, q)
        }
}

/// Whether the binds `slots` of `g` are copies of what `m` binds, under names that begin as the
/// names of what is copied and that no variable of `es` has.
pub open spec fn copies(
    h: Heap,
    g: Heap,
    es: Seq<NodeView>,
    m: MetaId,
    slots: Slots<BindId>,
) -> bool {
    let b = h.metas[m as int].bindings;
    &&& m < h.metas.len()
    &&& binds_added(h, g)
    &&& copied(h, g, es, b.params, slots.params)
    &&& copied(h, g, es, b.lets, slots.lets)
}

/// Whether the binds `to` of `g` are copies of the binds `from`.
pub open spec fn copied(
    h: Heap,
    g: Heap,
    es: Seq<NodeView>,
    from: Seq<BindId>,
    to: Seq<BindId>,
) -> bool {
    &&& from.len() == to.len()
    &&& forall|i: int|
        0 <= i < to.len() ==> {
            let name = g.binds[#[trigger] to[i] as int].name;
            &&& h.binds.len() <= to[i] < g.binds.len()
            &&& !taken(h, es, name)
            &&& h.binds[from[i] as int].name.is_prefix_of(name)
        }
}

proof fn lemma_note_grows(h: Heap, t: TermView, fuel: nat, e: Effects)
    ensures
        note_rules(h, t, fuel, e) matches Ok(e2) ==> e.next <= e2.next,
    decreases fuel, 1nat, 0nat,
{
    if fuel > 0 {
        let less = (fuel - 1) as nat;
        law_whnf_normal(h, t, true, true, less, e);
        if let Ok((w, e2)) = whnf(h, t, true, true, less, e) {
            if h.assigned(w.term.base) {
                lemma_note_args_grow(h, w.term, 0, less, e2);
            }
        }
    }
}

proof fn lemma_note_args_grow(h: Heap, t: TermView, i: nat, fuel: nat, e: Effects)
    ensures
        note_args(h, t, i, fuel, e) matches Ok(e2) ==> e.next <= e2.next,
    decreases fuel + 1, 0nat, args_of(h, t.base).len() - i,
{
    if i < args_of(h, t.base).len() && has_arg(h, t, i as int) && e.can_draw(2) {
        let arg = argument(h, t, i as int, vars_entry(e.next, (e.next + STRIDE) as u64));
        let e1 = e.plus(2, crate::es::links(arg_bindings(h, t, i as int)));
        lemma_note_grows(h, arg, fuel, e1);
        if let Ok(e2) = note_rules(h, arg, fuel, e1) {
            lemma_note_args_grow(h, t, i + 1, fuel, e2);
        }
    }
}

proof fn lemma_rules_grow(h: Heap, t: Option<TypeView>, fuel: nat, next: u64)
    ensures
        rules_of(h, t, fuel, next) matches Ok((_, n)) ==> next <= n,
{
    if let Some(ty) = t {
        lemma_note_grows(h, codomain(ty), fuel, fresh(next));
    }
}

/// Without rules, only a metavariable at the head is in the way.
proof fn lemma_stuck_base(h: Heap, t: TermView, keeps: bool, fuel: nat, e: Effects)
    ensures
        whnf(h, t, false, keeps, fuel, e) matches Ok((w, _)) ==> (w.head matches Head::Meta(m)
            ==> w.term.base == m),
    decreases fuel,
{
    if fuel > 0 && h.assigned(t.base) {
        let a = h.metas[t.base as int].assignment->0;
        if a.head.0.0 < t.es.len() {
            let node = t.es[a.head.0.0 as int];
            if let Some((s, i)) = crate::term::replaces(node, a.head.1) {
                let entry = crate::es::subst_entry(
                    crate::data::SubstView { args: a.args, es: t.es },
                    e.next,
                );
                lemma_stuck_base(
                    h,
                    crate::term::substituted(h, s, i, entry),
                    keeps,
                    (fuel - 1) as nat,
                    e.plus(2, crate::es::links(h.metas[s.args[i] as int].bindings)),
                );
            }
        }
    }
}

proof fn lemma_free_begins(h: Heap, es: Seq<NodeView>, name: Seq<char>)
    ensures
        name.is_prefix_of(free_name(h, es, name)),
{
    let k = choose|k: nat| first_free(h, es, name, k);
    assert(suffixed(name, k).take(name.len() as int) =~= name);
}

proof fn lemma_copies(h: Heap, es: Seq<NodeView>, m: MetaId)
    requires
        m < h.metas.len(),
        with_renamed(h, h.metas[m as int].bindings, es, Polarity::Goal).binds.len() <= usize::MAX,
    ensures
        ({
            let b = h.metas[m as int].bindings;
            copies(h, with_renamed(h, b, es, Polarity::Goal), es, m, renamed_slots(h, b))
        }),
{
    let b = h.metas[m as int].bindings;
    let g = with_renamed(h, b, es, Polarity::Goal);
    let to = renamed_slots(h, b);
    lemma_renamed_added(h, b, es);
    let (n, p) = (h.binds.len(), b.params.len());
    assert forall|i: int| 0 <= i < to.params.len() implies {
        let name = g.binds[#[trigger] to.params[i] as int].name;
        &&& h.binds.len() <= to.params[i] < g.binds.len()
        &&& !taken(h, es, name)
        &&& h.binds[b.params[i] as int].name.is_prefix_of(name)
    } by {
        let old_name = h.binds[b.params[i] as int].name;
        law_free_name(h, es, old_name);
        lemma_free_begins(h, es, old_name);
        assert(to.params[i] == n + i);
        assert(g.binds[n + i] == renamed(h, b.params, es, Polarity::Goal)[i]);
    }
    assert forall|i: int| 0 <= i < to.lets.len() implies {
        let name = g.binds[#[trigger] to.lets[i] as int].name;
        &&& h.binds.len() <= to.lets[i] < g.binds.len()
        &&& !taken(h, es, name)
        &&& h.binds[b.lets[i] as int].name.is_prefix_of(name)
    } by {
        let old_name = h.binds[b.lets[i] as int].name;
        law_free_name(h, es, old_name);
        lemma_free_begins(h, es, old_name);
        assert(to.lets[i] == n + p + i);
        assert(g.binds[n + p + i] == renamed(h, b.lets, es, Polarity::Goal)[i]);
    }
}

proof fn lemma_arg_says_before(
    h: Heap,
    h2: Heap,
    es: Seq<NodeView>,
    m: MetaId,
    t: IRTermView,
    q: Manner,
)
    requires
        binds_added(h, h2),
        arg_says(h2, es, m, t, q),
    ensures
        arg_says(h, es, m, t, q),
{
    let (h1, g, slots, x, y) = choose|h1: Heap, g: Heap, slots: Slots<BindId>, x: u64, y: u64|
     #[trigger]
        any((h1, g, slots, x, y)) && {
            &&& binds_added(h2, h1)
            &&& copies(h1, g, es, m, slots)
            &&& x != y && absent(x, es) && absent(y, es)
            &&& says(g, TermView { base: m, es: put(es, unbound(slots, x, y)) }, slots, t, q)
        };
    lemma_added_trans(h, h2, h1);
    assert(any((h1, g, slots, x, y)));
}

/// What reading leaves behind: further binds and later identifiers.
spec fn left(h: Heap, g: Heap, next: u64, n: u64) -> bool {
    binds_added(h, g) && next <= n
}

proof fn lemma_body_read(
    h: Heap,
    w: WhnfView,
    q: Manner,
    fuel: nat,
    next: u64,
)
    requires
        drawn(w.term.es, next),
        fuel <= q.depth,
        match w.head {
            Head::Var(v) => head_of(h, w.term) == Some(v),
            Head::Meta(m) => m < h.metas.len() && h.metas[m as int].assignment is None && (
            w.term.base == m || (q.rules && head_of(h, w.term) is Some)),
        },
    ensures
        read_body(h, w, q.rules, false, fuel, next) matches Ok((g, s, n)) ==> left(h, g, next, n)
            && (g.binds.len() <= usize::MAX ==> spine_says(h, w.term, s, q)),
    decreases fuel, 4nat, 0nat,
{
    if let Ok((g, s, n)) = read_body(h, w, q.rules, false, fuel, next) {
        match w.head {
            Head::Meta(m) => {
                lemma_added_refl(h);
                lemma_meta_read(h, w.term, m, q, fuel, next);
                assert(any(m));
            },
            Head::Var(v) => {
                let args = args_of(h, w.term.base);
                lemma_args_read(h, w.term.es, args, q, args.len(), fuel, next);
                let (g1, ts, n1) = read_args(
                    h,
                    w.term.es,
                    args,
                    q.rules,
                    false,
                    args.len(),
                    fuel,
                    next,
                )->Ok_0;
                assert(ts =~= s.args);
                let a = h.metas[w.term.base as int].assignment->0;
                lemma_rules_grow(g1, a.var_type, fuel, n1);
                law_rules_noted(g1, a.var_type, fuel, n1);
                assert(binds_added(h, g1));
                assert(arguments(h, w.term) == args);
            },
        }
    }
}

proof fn lemma_meta_read(h: Heap, t: TermView, m: MetaId, q: Manner, fuel: nat, next: u64)
    requires
        drawn(t.es, next),
        fuel <= q.depth,
        m < h.metas.len(),
        h.metas[m as int].assignment is None,
        t.base == m || (q.rules && head_of(h, t) is Some),
    ensures
        read_meta(h, t, m, q.rules, fuel, next) matches Ok((g, s, n)) ==> left(h, g, next, n) && (
        g.binds.len() <= usize::MAX ==> names_meta(h, t, m, s, q)),
    decreases fuel, 3nat, 0nat,
{
    lemma_added_refl(h);
    if let Ok((g, s, n)) = read_meta(h, t, m, q.rules, fuel, next) {
        if h.metas[m as int].bindings.params.len() != 0 {
            lemma_drawn_at(t.es, next, 0);
            if let Some(sub) = t.es[0].entry.subst {
                lemma_args_read(h, sub.es, sub.args, q, sub.args.len(), fuel, next);
            }
        }
    }
}

proof fn lemma_args_read(
    h: Heap,
    es: Seq<NodeView>,
    ms: Seq<MetaId>,
    q: Manner,
    k: nat,
    fuel: nat,
    next: u64,
)
    requires
        drawn(es, next),
        fuel <= q.depth,
        k <= ms.len(),
    ensures
        read_args(h, es, ms, q.rules, false, k, fuel, next) matches Ok((g, ts, n)) ==> left(
            h,
            g,
            next,
            n,
        ) && (g.binds.len() <= usize::MAX ==> args_say(h, es, ms.take(k as int), ts, q)),
    decreases fuel, 2nat, k,
{
    if k == 0 {
        lemma_added_refl(h);
    } else {
        let l = (k - 1) as nat;
        lemma_args_read(h, es, ms, q, l, fuel, next);
        if let Ok((g, all, n)) = read_args(h, es, ms, q.rules, false, k, fuel, next) {
            let (g1, ts, n1) = read_args(h, es, ms, q.rules, false, l, fuel, next)->Ok_0;
            lemma_es_drawn_later(es, next, n1);
            lemma_one_read(g1, es, ms[l as int], q, fuel, n1);
            lemma_added_trans(h, g1, g);
            if g.binds.len() <= usize::MAX {
                let (short, long) = (ms.take(l as int), ms.take(k as int));
                assert forall|i: int| #[trigger] any(i) && 0 <= i < all.len() implies arg_says(
                    h,
                    es,
                    long[i],
                    all[i],
                    q,
                ) by {
                    if i < l {
                        assert(long[i] == short[i] && all[i] == ts[i]);
                    } else {
                        lemma_arg_says_before(h, g1, es, ms[l as int], all[i], q);
                    }
                }
            }
        }
    }
    assert(ms.take(ms.len() as int) =~= ms);
}

proof fn lemma_one_read(
    h: Heap,
    es: Seq<NodeView>,
    m: MetaId,
    q: Manner,
    fuel: nat,
    next: u64,
)
    requires
        drawn(es, next),
        fuel <= q.depth,
    ensures
        read_one(h, es, m, q.rules, false, fuel, next) matches Ok((g, t, n)) ==> left(
            h,
            g,
            next,
            n,
        ) && (g.binds.len() <= usize::MAX ==> arg_says(h, es, m, t, q)),
    decreases fuel, 1nat, 0nat,
{
    if let Ok((g, t, n)) = read_one(h, es, m, q.rules, false, fuel, next) {
        let b = h.metas[m as int].bindings;
        let slots = renamed_slots(h, b);
        let (x, y) = (next, (next + STRIDE) as u64);
        let later = (next + 2 * STRIDE) as u64;
        let node = NodeView { entry: vars_entry(x, y), bindings: slots };
        let h1 = with_renamed(h, b, es, Polarity::Goal);
        let u = TermView { base: m, es: appended(es, node) };
        lemma_es_drawn_later(es, next, later);
        lemma_drawn_appended(es, node, later);
        lemma_lambda_read(h1, u, slots, q, fuel, later);
        lemma_renamed_added(h, b, es);
        lemma_added_trans(h, h1, g);
        if g.binds.len() <= usize::MAX {
            lemma_copies(h, es, m);
            lemma_added_refl(h);
            lemma_absent(x, es, next);
            lemma_absent(y, es, next);
            assert(u.es == put(es, unbound(slots, x, y)));
            assert(any((h, h1, slots, x, y)));
        }
    }
}

proof fn lemma_lambda_read(
    h: Heap,
    t: TermView,
    slots: Slots<BindId>,
    q: Manner,
    fuel: nat,
    next: u64,
)
    requires
        drawn(t.es, next),
        fuel <= q.depth,
    ensures
        read_lambda(h, t, slots, q.rules, false, fuel, next) matches Ok((g, v, n)) ==> left(
            h,
            g,
            next,
            n,
        ) && (g.binds.len() <= usize::MAX ==> says(h, t, slots, v, q)),
    decreases fuel, 0nat, 0nat,
{
    if let Ok((g, v, n)) = read_lambda(h, t, slots, q.rules, false, fuel, next) {
        let less = (fuel - 1) as nat;
        let typ = h.metas[t.base as int].typ;
        lemma_rules_grow(h, typ, less, next);
        law_rules_noted(h, typ, less, next);
        let (_, n1) = rules_of(h, typ, less, next)->Ok_0;
        lemma_es_drawn_later(t.es, next, n1);
        let e = fresh(n1);
        law_whnf_reaches(h, t, q.rules, false, less, e, q.depth);
        law_whnf_drawn(h, t, q.rules, false, less, e);
        law_whnf_normal(h, t, q.rules, false, less, e);
        if !q.rules {
            lemma_stuck_base(h, t, false, less, e);
        }
        let (w, e2) = whnf(h, t, q.rules, false, less, e)->Ok_0;
        crate::soundness::lemma_head_var(h, w.term);
        lemma_body_read(h, w, q, less, e2.next);
        assert(any(w.term));
    }
}

/// What is read of a term says what the term is: it binds the names of what the term binds, and the
/// term reduces to what its spine says, and so it is of each of the arguments. Where an argument
/// binds variables, they are read under names that are not in use.
pub proof fn law_read_says(
    h: Heap,
    t: TermView,
    slots: Slots<BindId>,
    q: Manner,
    fuel: nat,
    next: u64,
)
    requires
        drawn(t.es, next),
        fuel <= q.depth,
    ensures
        match read_lambda(h, t, slots, q.rules, false, fuel, next) {
            Ok((g, v, _)) => g.binds.len() <= usize::MAX ==> says(h, t, slots, v, q),
            Err(_) => true,
        },
{
    lemma_lambda_read(h, t, slots, q, fuel, next);
}

} // verus!
