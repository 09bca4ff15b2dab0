//! Reading back a term that was written.
use crate::data::{BindId, EntryView, MetaId, NodeView, TermView, Var};
use crate::elaborate::{
    body, body_args, extended_es, extension, new_bindings, original_assignment, original_meta, term,
    Progressed,
};
use crate::es::{
    appended, first_named, level, level_vars, named, var_at, variables, vars_entry, vars_from,
};
use crate::ids::{Fault, STRIDE};
use crate::index::{DeBruijnIndex, Index, Polarity, Slots};
use crate::ir::{var_names, IRLet, IRLetView, IRSpine, IRSpineView, IRTerm, IRTermView, IRType};
use crate::memory::Heap;
use crate::names::{
    binds_present, first_free, free_name, renamed, renamed_slots, suffixed, taken, with_renamed,
};
use crate::readback::{bare_lets, bind_names, read_args, read_lambda, read_one};
use crate::typed::{typ, typ_parts, TbView};
use vstd::prelude::*;

verus! {

/// The names of let declarations.
pub open spec fn let_names(lets: Seq<IRLet>) -> Seq<Seq<char>> {
    lets.map_values(|l: IRLet| l.var.name@)
}

/// The names that the term binds.
pub open spec fn own_names(t: IRTerm) -> Slots<Seq<char>> {
    Slots { params: var_names(t.params@), lets: let_names(t.lets@) }
}

/// The number of variables that are bound in the spine.
pub open spec fn spine_binders(s: IRSpine) -> nat
    decreases s, 0nat,
{
    terms_binders(s.args@, s.args@.len())
}

/// The number of variables that are bound in the first `k` terms.
pub open spec fn terms_binders(ts: Seq<IRTerm>, k: nat) -> nat
    decreases ts, k,
{
    if k == 0 || k > ts.len() {
        0
    } else {
        terms_binders(ts, (k - 1) as nat) + term_binders(ts[k - 1])
    }
}

/// The number of variables that are bound in the term.
pub open spec fn term_binders(t: IRTerm) -> nat
    decreases t, 0nat,
{
    t.params@.len() + t.lets@.len() + spine_binders(t.spine)
}

/// The spine without rules.
pub open spec fn outline_spine(s: IRSpine) -> IRSpineView
    decreases s, 0nat,
{
    IRSpineView {
        head: s.head@,
        args: outline_terms(s.args@, s.args@.len()),
        premise_rules: Seq::empty(),
    }
}

/// The first `k` terms without rules.
pub open spec fn outline_terms(ts: Seq<IRTerm>, k: nat) -> Seq<IRTermView>
    decreases ts, k,
{
    if k == 0 || k > ts.len() {
        Seq::empty()
    } else {
        outline_terms(ts, (k - 1) as nat).push(outline_term(ts[k - 1]))
    }
}

/// The term without rules.
pub open spec fn outline_term(t: IRTerm) -> IRTermView
    decreases t, 0nat,
{
    IRTermView {
        params: var_names(t.params@),
        lets: t.lets@.map_values(
            |l: IRLet| IRLetView { name: l.var.name@, rules: Seq::empty() },
        ),
        spine: outline_spine(t.spine),
        goal_rules: Seq::empty(),
    }
}

/// Whether no name of the spine hides one of `used` or one that is bound around it.
pub open spec fn spine_clear(used: Set<Seq<char>>, s: IRSpine) -> bool
    decreases s, 0nat,
{
    terms_clear(used, s.args@, s.args@.len())
}

/// Whether no name of the first `k` terms hides one of `used` or one that is bound around it.
pub open spec fn terms_clear(used: Set<Seq<char>>, ts: Seq<IRTerm>, k: nat) -> bool
    decreases ts, k,
{
    k == 0 || k > ts.len() || (terms_clear(used, ts, (k - 1) as nat) && term_clear(
        used,
        ts[k - 1],
    ))
}

/// Whether no name of the term hides one of `used` or one that is bound around it.
pub open spec fn term_clear(used: Set<Seq<char>>, t: IRTerm) -> bool
    decreases t, 0nat,
{
    &&& forall|i: int|
        0 <= i < t.params@.len() ==> !used.contains(#[trigger] own_names(t).params[i])
    &&& forall|i: int| 0 <= i < t.lets@.len() ==> !used.contains(#[trigger] own_names(t).lets[i])
    &&& spine_clear(with_names(used, own_names(t)), t.spine)
}

/// The names `used`, and those that are bound.
pub open spec fn with_names(used: Set<Seq<char>>, own: Slots<Seq<char>>) -> Set<Seq<char>> {
    used.union(own.params.to_set()).union(own.lets.to_set())
}

/// The names of bindings.
pub open spec fn name_slots(h: Heap, b: Slots<BindId>) -> Slots<Seq<char>> {
    Slots { params: bind_names(h, b.params), lets: bind_names(h, b.lets) }
}

/// The names in a context.
pub open spec fn scope(h: Heap, es: Seq<NodeView>) -> Seq<Slots<Seq<char>>> {
    es.map_values(|n: NodeView| name_slots(h, n.bindings))
}

/// The names in a context that is extended by `own`.
pub open spec fn scope_with(sc: Seq<Slots<Seq<char>>>, own: Slots<Seq<char>>) -> Seq<
    Slots<Seq<char>>,
> {
    if own.none() {
        sc
    } else {
        seq![own] + sc
    }
}

/// Whether the node binds variables that are in the heap and substitutes nothing.
pub open spec fn node_plain(h: Heap, n: NodeView) -> bool {
    &&& n.entry.subst is None
    &&& binds_present(h, n.bindings.params)
    &&& binds_present(h, n.bindings.lets)
}

/// Whether the context binds variables that are in the heap and substitutes nothing.
pub open spec fn context_plain(h: Heap, es: Seq<NodeView>) -> bool {
    forall|d: int| 0 <= d < es.len() ==> node_plain(h, #[trigger] es[d])
}

/// Whether the metavariable `m` is the spine `s` in a context with the given names.
pub open spec fn holds_spine(
    h: Heap,
    m: MetaId,
    s: IRSpine,
    sc: Seq<Slots<Seq<char>>>,
) -> bool
    decreases s, 0nat,
{
    &&& h.assigned(m)
    &&& h.metas[m as int].typ is None
    &&& {
        let a = h.metas[m as int].assignment->0;
        &&& a.var_type is None
        &&& a.head.0.0 < sc.len()
        &&& sc[a.head.0.0 as int].has(a.head.1)
        &&& sc[a.head.0.0 as int].at(a.head.1) == s.head@
        &&& a.args.len() == s.args@.len()
        &&& holds_terms(h, a.args, m + 1, s.args@, sc, s.args@.len())
    }
}

/// Whether the first `k` of the metavariables `ms`, which are not below `lo`, are the terms `ts`
/// in a context with the given names.
pub open spec fn holds_terms(
    h: Heap,
    ms: Seq<MetaId>,
    lo: int,
    ts: Seq<IRTerm>,
    sc: Seq<Slots<Seq<char>>>,
    k: nat,
) -> bool
    decreases ts, k,
{
    k == 0 || k > ts.len() || {
        &&& holds_terms(h, ms, lo, ts, sc, (k - 1) as nat)
        &&& lo <= ms[k - 1]
        &&& holds_term(h, ms[k - 1], ts[k - 1], sc)
    }
}

/// Whether the metavariable `m` is the term `t` in a context with the given names.
pub open spec fn holds_term(
    h: Heap,
    m: MetaId,
    t: IRTerm,
    sc: Seq<Slots<Seq<char>>>,
) -> bool
    decreases t, 0nat,
{
    &&& m < h.metas.len()
    &&& binds_present(h, h.metas[m as int].bindings.params)
    &&& binds_present(h, h.metas[m as int].bindings.lets)
    &&& name_slots(h, h.metas[m as int].bindings) == own_names(t)
    &&& holds_spine(h, m, t.spine, scope_with(sc, own_names(t)))
}

/// Whether `g` has what `h` has: the metavariables from `lo` on, and the names of the binds.
pub open spec fn keeps(h: Heap, g: Heap, lo: int) -> bool {
    &&& h.metas.len() <= g.metas.len()
    &&& forall|x: int| lo <= x < h.metas.len() ==> #[trigger] g.metas[x] == h.metas[x]
    &&& h.binds.len() <= g.binds.len()
    &&& forall|b: int|
        0 <= b < h.binds.len() ==> (#[trigger] g.binds[b]).name == h.binds[b].name
}

proof fn lemma_names_kept(h: Heap, g: Heap, lo: int, b: Slots<BindId>)
    requires
        keeps(h, g, lo),
        binds_present(h, b.params),
        binds_present(h, b.lets),
    ensures
        binds_present(g, b.params),
        binds_present(g, b.lets),
        name_slots(g, b) == name_slots(h, b),
{
    assert forall|i: int| 0 <= i < b.params.len() implies (#[trigger] b.params[i]) < g.binds.len()
        && g.binds[b.params[i] as int].name == h.binds[b.params[i] as int].name by {
        assert(b.params[i] < h.binds.len());
    }
    assert forall|i: int| 0 <= i < b.lets.len() implies (#[trigger] b.lets[i]) < g.binds.len()
        && g.binds[b.lets[i] as int].name == h.binds[b.lets[i] as int].name by {
        assert(b.lets[i] < h.binds.len());
    }
    assert(bind_names(g, b.params) =~= bind_names(h, b.params));
    assert(bind_names(g, b.lets) =~= bind_names(h, b.lets));
}

pub proof fn lemma_scope_kept(h: Heap, g: Heap, lo: int, es: Seq<NodeView>)
    requires
        keeps(h, g, lo),
        context_plain(h, es),
    ensures
        context_plain(g, es),
        scope(g, es) == scope(h, es),
{
    assert forall|d: int| 0 <= d < es.len() implies node_plain(g, #[trigger] es[d]) && scope(
        g,
        es,
    )[d] == scope(h, es)[d] by {
        assert(node_plain(h, es[d]));
        lemma_names_kept(h, g, lo, es[d].bindings);
    }
    assert(scope(g, es) =~= scope(h, es));
}

proof fn lemma_spine_kept(h: Heap, g: Heap, lo: int, m: MetaId, s: IRSpine, sc: Seq<Slots<Seq<char>>>)
    requires
        keeps(h, g, lo),
        lo <= m,
        holds_spine(h, m, s, sc),
    ensures
        holds_spine(g, m, s, sc),
    decreases s, 0nat,
{
    assert(g.metas[m as int] == h.metas[m as int]);
    let a = h.metas[m as int].assignment->0;
    lemma_terms_kept(h, g, lo, a.args, m + 1, s.args@, sc, s.args@.len());
}

proof fn lemma_terms_kept(
    h: Heap,
    g: Heap,
    lo: int,
    ms: Seq<MetaId>,
    from: int,
    ts: Seq<IRTerm>,
    sc: Seq<Slots<Seq<char>>>,
    k: nat,
)
    requires
        keeps(h, g, lo),
        lo <= from,
        holds_terms(h, ms, from, ts, sc, k),
    ensures
        holds_terms(g, ms, from, ts, sc, k),
    decreases ts, k,
{
    if 0 < k <= ts.len() {
        lemma_terms_kept(h, g, lo, ms, from, ts, sc, (k - 1) as nat);
        lemma_term_kept(h, g, lo, ms[k - 1], ts[k - 1], sc);
    }
}

proof fn lemma_term_kept(h: Heap, g: Heap, lo: int, m: MetaId, t: IRTerm, sc: Seq<Slots<Seq<char>>>)
    requires
        keeps(h, g, lo),
        lo <= m,
        holds_term(h, m, t, sc),
    ensures
        holds_term(g, m, t, sc),
    decreases t, 0nat,
{
    assert(g.metas[m as int] == h.metas[m as int]);
    lemma_names_kept(h, g, lo, h.metas[m as int].bindings);
    lemma_spine_kept(h, g, lo, m, t.spine, scope_with(sc, own_names(t)));
}

/// A variable that is found by name is at the place that its index gives.
proof fn lemma_found_place(h: Heap, es: Seq<NodeView>, name: Seq<char>, k: int)
    requires
        es.len() <= u32::MAX,
        0 <= k,
        context_plain(h, es),
        h.binds.len() <= usize::MAX,
    ensures
        first_named(h, variables(es), name, k) matches Some((db, v)) ==> {
            &&& db.0.0 < es.len()
            &&& es[db.0.0 as int].bindings.has(db.1)
            &&& es[db.0.0 as int].bindings.at(db.1) == v.bind
            &&& named(h, v.bind, name)
        },
    decreases variables(es).len() - k,
{
    if k < variables(es).len() {
        lemma_place(es, 0, k);
        lemma_found_place(h, es, name, k + 1);
    }
}

proof fn lemma_place(es: Seq<NodeView>, d: int, k: int)
    requires
        es.len() <= u32::MAX,
        0 <= d,
        0 <= k < vars_from(es, d).len(),
    ensures
        ({
            let (db, v) = vars_from(es, d)[k];
            &&& db.0.0 < es.len()
            &&& es[db.0.0 as int].bindings.order().contains(db.1)
            &&& es[db.0.0 as int].bindings.at(db.1) == v.bind
        }),
    decreases es.len() - d,
{
    let here = level_vars(es, d);
    if k < here.len() {
        assert(vars_from(es, d)[k] == here[k]);
        assert(es[d].bindings.order()[k] == here[k].0.1);
        assert(level(d).0 == d) by {
            assert(d % 0x1_0000_0000 == d);
        }
    } else {
        assert(vars_from(es, d)[k] == vars_from(es, d + 1)[k - here.len()]);
        lemma_place(es, d + 1, k - here.len());
    }
}

proof fn lemma_keeps_trans(a: Heap, b: Heap, c: Heap, lo: int)
    requires
        keeps(a, b, lo),
        keeps(b, c, lo),
    ensures
        keeps(a, c, lo),
{
    assert forall|x: int| lo <= x < a.metas.len() implies #[trigger] c.metas[x] == a.metas[x] by {
        assert(b.metas[x] == a.metas[x]);
    }
    assert forall|x: int| 0 <= x < a.binds.len() implies (#[trigger] c.binds[x]).name
        == a.binds[x].name by {
        assert(b.binds[x].name == a.binds[x].name);
    }
}

/// Extending a context by what a term binds adds the names of the term.
pub proof fn lemma_extended(s: Progressed, t: IRTerm, es: Seq<NodeView>, polarity: Polarity)
    requires
        context_plain(s.heap, es),
        s.heap.binds.len() + t.params@.len() + t.lets@.len() <= usize::MAX,
        extension(s, t.params@, t.lets@, es, polarity) is Ok,
    ensures
        ({
            let s1 = extension(s, t.params@, t.lets@, es, polarity)->Ok_0;
            let ces = extended_es(s, t.params@, t.lets@, es);
            let b = new_bindings(s.heap, t.params@, t.lets@);
            &&& keeps(s.heap, s1.heap, 0)
            &&& s1.heap.metas == s.heap.metas
            &&& s1.heap.binds.len() == s.heap.binds.len() + t.params@.len() + t.lets@.len()
            &&& binds_present(s1.heap, b.params)
            &&& binds_present(s1.heap, b.lets)
            &&& name_slots(s1.heap, b) == own_names(t)
            &&& context_plain(s1.heap, ces)
            &&& scope(s1.heap, ces) == scope_with(scope(s.heap, es), own_names(t))
            &&& ces.len() <= es.len() + t.params@.len() + t.lets@.len()
        }),
{
    let s1 = extension(s, t.params@, t.lets@, es, polarity)->Ok_0;
    let ces = extended_es(s, t.params@, t.lets@, es);
    let b = new_bindings(s.heap, t.params@, t.lets@);
    let n = s.heap.binds.len();
    let p = t.params@.len();
    assert forall|i: int| 0 <= i < p implies (#[trigger] b.params[i]) == n + i
        && s1.heap.binds[n + i].name == t.params@[i].name@ by {}
    assert forall|i: int| 0 <= i < t.lets@.len() implies (#[trigger] b.lets[i]) == n + p + i
        && s1.heap.binds[n + p + i].name == t.lets@[i].var.name@ by {}
    assert(bind_names(s1.heap, b.params) =~= var_names(t.params@));
    assert(bind_names(s1.heap, b.lets) =~= let_names(t.lets@));
    lemma_scope_kept(s.heap, s1.heap, 0, es);
    if b.none() {
        assert(ces == es);
    } else {
        let node = ces[0];
        assert(ces =~= seq![node] + es);
        assert forall|d: int| 0 <= d < ces.len() implies node_plain(
            s1.heap,
            #[trigger] ces[d],
        ) by {
            if d > 0 {
                assert(ces[d] == es[d - 1]);
            }
        }
        assert forall|d: int| 0 <= d < ces.len() implies scope(s1.heap, ces)[d] == scope_with(
            scope(s.heap, es),
            own_names(t),
        )[d] by {
            if d > 0 {
                assert(ces[d] == es[d - 1]);
                assert(scope(s1.heap, es)[d - 1] == scope(s.heap, es)[d - 1]);
            }
        }
        assert(scope(s1.heap, ces) =~= scope_with(scope(s.heap, es), own_names(t)));
    }
}

/// Elaborating a spine yields a metavariable that is the spine.
pub proof fn lemma_body_holds(
    s: Progressed,
    spine: IRSpine,
    es: Seq<NodeView>,
    bindings: Slots<BindId>,
    polarity: Polarity,
)
    requires
        context_plain(s.heap, es),
        es.len() + spine_binders(spine) <= u32::MAX,
        s.heap.binds.len() + spine_binders(spine) <= usize::MAX,
    ensures
        body(s, spine, es, bindings, polarity) matches Ok((s2, m, _)) ==> {
            &&& s.heap.metas.len() < s2.heap.metas.len()
            &&& s2.heap.metas.len() <= usize::MAX ==> {
                &&& s2.heap.binds.len() == s.heap.binds.len() + spine_binders(spine)
                &&& m == s.heap.metas.len()
                &&& keeps(s.heap, s2.heap, 0)
                &&& s2.heap.metas[m as int].bindings == bindings
                &&& s2.heap.metas[m as int].gamma == es
                &&& holds_spine(s2.heap, m, spine, scope(s.heap, es))
            }
        },
    decreases spine, 0nat,
{
    lemma_found_place(s.heap, es, spine.head@, 0);
    if let Some((head, var)) = first_named(s.heap, variables(es), spine.head@, 0) {
        let m = s.heap.metas.len() as MetaId;
        let s1 = Progressed {
            heap: Heap { metas: s.heap.metas.push(original_meta(es, bindings)), ..s.heap },
            ..s
        };
        assert(keeps(s.heap, s1.heap, 0));
        lemma_scope_kept(s.heap, s1.heap, 0, es);
        lemma_args_hold(s1, spine.args@, es, polarity, spine.args@.len());
        if let Ok((s2, args, _)) = body_args(s1, spine.args@, es, polarity, spine.args@.len()) {
            let a = original_assignment(head, args, var.bind);
            let g = s2.heap.with_assignment(m, Some(a));
            if s2.heap.metas.len() <= usize::MAX {
                assert(s2.heap.metas[m as int] == s1.heap.metas[m as int]);
                assert(keeps(s2.heap, g, m + 1));
                lemma_terms_kept(
                    s2.heap,
                    g,
                    m + 1,
                    args,
                    m + 1,
                    spine.args@,
                    scope(s.heap, es),
                    spine.args@.len(),
                );
                assert forall|x: int| 0 <= x < s.heap.metas.len() implies #[trigger] g.metas[x]
                    == s.heap.metas[x] by {
                    assert(s1.heap.metas[x] == s.heap.metas[x]);
                    assert(s2.heap.metas[x] == s1.heap.metas[x]);
                }
                assert forall|x: int| 0 <= x < s.heap.binds.len() implies (
                #[trigger] g.binds[x]).name == s.heap.binds[x].name by {
                    assert(s2.heap.binds[x].name == s1.heap.binds[x].name);
                }
                let d = head.0.0 as int;
                assert(scope(s.heap, es)[d] == name_slots(s.heap, es[d].bindings));
                assert(node_plain(s.heap, es[d]));
            }
        }
    }
}

pub proof fn lemma_args_hold(
    s: Progressed,
    args: Seq<IRTerm>,
    es: Seq<NodeView>,
    polarity: Polarity,
    k: nat,
)
    requires
        k <= args.len(),
        context_plain(s.heap, es),
        es.len() + terms_binders(args, k) <= u32::MAX,
        s.heap.binds.len() + terms_binders(args, k) <= usize::MAX,
    ensures
        body_args(s, args, es, polarity, k) matches Ok((s2, ids, _)) ==> {
            &&& s.heap.metas.len() <= s2.heap.metas.len()
            &&& ids.len() == k
            &&& s2.heap.metas.len() <= usize::MAX ==> {
                &&& s2.heap.binds.len() == s.heap.binds.len() + terms_binders(args, k)
                &&& keeps(s.heap, s2.heap, 0)
                &&& holds_terms(
                    s2.heap,
                    ids,
                    s.heap.metas.len() as int,
                    args,
                    scope(s.heap, es),
                    k,
                )
            }
        },
    decreases args, k,
{
    if k > 0 {
        lemma_args_hold(s, args, es, polarity, (k - 1) as nat);
        if let Ok((s1, ids, _)) = body_args(s, args, es, polarity, (k - 1) as nat) {
            if s1.heap.metas.len() <= usize::MAX {
                lemma_scope_kept(s.heap, s1.heap, 0, es);
                lemma_term_holds(s1, args[k - 1], es, polarity);
                if let Ok((s2, m, _)) = term(s1, args[k - 1], es, polarity) {
                    if s2.heap.metas.len() <= usize::MAX {
                        lemma_keeps_trans(s.heap, s1.heap, s2.heap, 0);
                        let all = ids.push(m);
                        let lo = s.heap.metas.len() as int;
                        let sc = scope(s.heap, es);
                        lemma_terms_kept(s1.heap, s2.heap, 0, ids, lo, args, sc, (k - 1) as nat);
                        lemma_terms_prefix(s2.heap, ids, all, lo, args, sc, (k - 1) as nat);
                    }
                }
            } else {
                crate::elaborate::lemma_term_grows(s1, args[k - 1], es, polarity);
            }
        }
    }
}

proof fn lemma_terms_prefix(
    h: Heap,
    ms: Seq<MetaId>,
    all: Seq<MetaId>,
    lo: int,
    ts: Seq<IRTerm>,
    sc: Seq<Slots<Seq<char>>>,
    k: nat,
)
    requires
        k <= ms.len() <= all.len(),
        k <= ts.len(),
        forall|i: int| 0 <= i < ms.len() ==> #[trigger] all[i] == ms[i],
        holds_terms(h, ms, lo, ts, sc, k),
    ensures
        holds_terms(h, all, lo, ts, sc, k),
    decreases k,
{
    if k > 0 {
        lemma_terms_prefix(h, ms, all, lo, ts, sc, (k - 1) as nat);
        assert(all[k - 1] == ms[k - 1]);
    }
}

/// Elaborating a term yields a metavariable that is the term.
pub proof fn lemma_term_holds(s: Progressed, t: IRTerm, es: Seq<NodeView>, polarity: Polarity)
    requires
        context_plain(s.heap, es),
        es.len() + term_binders(t) <= u32::MAX,
        s.heap.binds.len() + term_binders(t) <= usize::MAX,
    ensures
        term(s, t, es, polarity) matches Ok((s2, m, _)) ==> {
            &&& s.heap.metas.len() < s2.heap.metas.len()
            &&& s2.heap.metas.len() <= usize::MAX ==> {
                &&& s2.heap.binds.len() == s.heap.binds.len() + term_binders(t)
                &&& m == s.heap.metas.len()
                &&& keeps(s.heap, s2.heap, 0)
                &&& s2.heap.metas[m as int].gamma == extended_es(s, t.params@, t.lets@, es)
                &&& holds_term(s2.heap, m, t, scope(s.heap, es))
            }
        },
    decreases t, 0nat,
{
    if let Ok(s1) = extension(s, t.params@, t.lets@, es, polarity.flipped()) {
        lemma_extended(s, t, es, polarity.flipped());
        let ces = extended_es(s, t.params@, t.lets@, es);
        let b = new_bindings(s.heap, t.params@, t.lets@);
        lemma_body_holds(s1, t.spine, ces, b, polarity);
        if let Ok((s2, m, _)) = body(s1, t.spine, ces, b, polarity) {
            if s2.heap.metas.len() <= usize::MAX {
                lemma_keeps_trans(s.heap, s1.heap, s2.heap, 0);
                lemma_names_kept(s1.heap, s2.heap, 0, b);
            }
        }
    }
}

proof fn lemma_listed(es: Seq<NodeView>, from: int, d: int, index: Index)
    requires
        0 <= from <= d < es.len(),
        es[d].bindings.has(index),
    ensures
        exists|k: int|
            0 <= k < vars_from(es, from).len() && (#[trigger] vars_from(es, from)[k]).1.bind
                == es[d].bindings.at(index),
    decreases d - from,
{
    let here = level_vars(es, from);
    if from == d {
        let b = es[d].bindings;
        let k: int = match index {
            Index::Param(i) => b.params.len() - 1 - i,
            Index::Let(i) => b.count() - 1 - i,
        };
        assert(b.order()[k] == index);
        assert(here[k].1.bind == b.at(index));
        assert(vars_from(es, from)[k] == here[k]);
    } else {
        lemma_listed(es, from + 1, d, index);
        let k = choose|k: int|
            0 <= k < vars_from(es, from + 1).len() && (#[trigger] vars_from(
                es,
                from + 1,
            )[k]).1.bind == es[d].bindings.at(index);
        assert(vars_from(es, from)[here.len() + k] == vars_from(es, from + 1)[k]);
    }
}

proof fn lemma_named_found(h: Heap, vars: Seq<(DeBruijnIndex, Var)>, name: Seq<char>, k: int, i: int)
    requires
        0 <= k <= i < vars.len(),
        named(h, vars[i].1.bind, name),
    ensures
        first_named(h, vars, name, k) is Some,
    decreases i - k,
{
    if k < i && !named(h, vars[k].1.bind, name) {
        lemma_named_found(h, vars, name, k + 1, i);
    }
}

/// A name that is bound in an extended context is bound around it or is one of the new ones.
proof fn lemma_taken_extended(
    h: Heap,
    g: Heap,
    es: Seq<NodeView>,
    node: NodeView,
    own: Slots<Seq<char>>,
    name: Seq<char>,
)
    requires
        keeps(h, g, 0),
        context_plain(h, es),
        node_plain(g, node),
        name_slots(g, node.bindings) == own,
        appended(es, node).len() <= u32::MAX,
        g.binds.len() <= usize::MAX,
        taken(g, appended(es, node), name),
    ensures
        taken(h, es, name) || own.params.contains(name) || own.lets.contains(name),
{
    let ces = appended(es, node);
    lemma_scope_kept(h, g, 0, es);
    lemma_context_extended(g, es, node);
    lemma_found_place(g, ces, name, 0);
    let (db, v) = first_named(g, variables(ces), name, 0)->0;
    let d = db.0.0 as int;
    if !node.bindings.none() && d == 0 {
        match db.1 {
            Index::Param(i) => {
                assert(own.params[i as int] == name);
            },
            Index::Let(i) => {
                assert(own.lets[i as int] == name);
            },
        }
    } else {
        let e = if node.bindings.none() {
            d
        } else {
            d - 1
        };
        assert(ces[d] == es[e]);
        assert(node_plain(h, es[e]));
        let b = es[e].bindings.at(db.1);
        assert(b < h.binds.len()) by {
            match db.1 {
                Index::Param(i) => {
                    assert(es[e].bindings.params[i as int] < h.binds.len());
                },
                Index::Let(i) => {
                    assert(es[e].bindings.lets[i as int] < h.binds.len());
                },
            }
        }
        assert(g.binds[b as int].name == h.binds[b as int].name);
        lemma_listed(es, 0, e, db.1);
        let k = choose|k: int|
            0 <= k < vars_from(es, 0).len() && (#[trigger] vars_from(es, 0)[k]).1.bind == b;
        lemma_named_found(h, variables(es), name, 0, k);
    }
}

proof fn lemma_context_extended(h: Heap, es: Seq<NodeView>, node: NodeView)
    requires
        context_plain(h, es),
        node_plain(h, node),
    ensures
        context_plain(h, appended(es, node)),
        scope(h, appended(es, node)) == scope_with(
            scope(h, es),
            name_slots(h, node.bindings),
        ),
{
    let ces = appended(es, node);
    if !node.bindings.none() {
        assert forall|d: int| 0 <= d < ces.len() implies node_plain(h, #[trigger] ces[d]) by {
            if d > 0 {
                assert(ces[d] == es[d - 1]);
            }
        }
        assert forall|d: int| 0 <= d < ces.len() implies scope(h, ces)[d] == scope_with(
            scope(h, es),
            name_slots(h, node.bindings),
        )[d] by {
            if d > 0 {
                assert(ces[d] == es[d - 1]);
            }
        }
        assert(scope(h, ces) =~= scope_with(scope(h, es), name_slots(h, node.bindings)));
    }
}

/// A name that is not in use is kept.
proof fn lemma_name_kept(h: Heap, es: Seq<NodeView>, name: Seq<char>)
    requires
        !taken(h, es, name),
    ensures
        free_name(h, es, name) == name,
{
    assert(suffixed(name, 0) == name);
    assert(first_free(h, es, name, 0));
    let k = choose|k: nat| first_free(h, es, name, k);
    if k > 0 {
        assert(taken(h, es, suffixed(name, 0)));
    }
}

/// Copies of bindings whose names are not in use have the same names.
proof fn lemma_renamed_names(h: Heap, b: Slots<BindId>, es: Seq<NodeView>)
    requires
        binds_present(h, b.params),
        binds_present(h, b.lets),
        h.binds.len() + b.params.len() + b.lets.len() <= usize::MAX,
        forall|i: int|
            0 <= i < b.params.len() ==> !taken(h, es, #[trigger] bind_names(h, b.params)[i]),
        forall|i: int|
            0 <= i < b.lets.len() ==> !taken(h, es, #[trigger] bind_names(h, b.lets)[i]),
    ensures
        ({
            let g = with_renamed(h, b, es, Polarity::Goal);
            let slots = renamed_slots(h, b);
            &&& keeps(h, g, 0)
            &&& g.metas == h.metas
            &&& g.binds.len() == h.binds.len() + b.params.len() + b.lets.len()
            &&& binds_present(g, slots.params)
            &&& binds_present(g, slots.lets)
            &&& name_slots(g, slots) == name_slots(h, b)
            &&& slots.none() == b.none()
        }),
{
    let g = with_renamed(h, b, es, Polarity::Goal);
    let slots = renamed_slots(h, b);
    let n = h.binds.len();
    let p = b.params.len();
    assert forall|i: int| 0 <= i < p implies (#[trigger] slots.params[i]) == n + i
        && g.binds[n + i].name == bind_names(h, b.params)[i] by {
        lemma_name_kept(h, es, bind_names(h, b.params)[i]);
        assert(g.binds[n + i] == renamed(h, b.params, es, Polarity::Goal)[i]);
    }
    assert forall|i: int| 0 <= i < b.lets.len() implies (#[trigger] slots.lets[i]) == n + p + i
        && g.binds[n + p + i].name == bind_names(h, b.lets)[i] by {
        lemma_name_kept(h, es, bind_names(h, b.lets)[i]);
        assert(g.binds[n + p + i] == renamed(h, b.lets, es, Polarity::Goal)[i]);
    }
    assert(bind_names(g, slots.params) =~= bind_names(h, b.params));
    assert(bind_names(g, slots.lets) =~= bind_names(h, b.lets));
}

/// Whether all names that are bound in the context are among `used`.
pub open spec fn covers(h: Heap, es: Seq<NodeView>, used: Set<Seq<char>>) -> bool {
    forall|name: Seq<char>| #[trigger] taken(h, es, name) ==> used.contains(name)
}

proof fn lemma_covers_kept(h: Heap, g: Heap, es: Seq<NodeView>, used: Set<Seq<char>>)
    requires
        keeps(h, g, 0),
        context_plain(h, es),
        es.len() <= u32::MAX,
        g.binds.len() <= usize::MAX,
        covers(h, es, used),
    ensures
        covers(g, es, used),
{
    let none = NodeView {
        entry: EntryView { params_id: 0, lets_id: 0, subst: None, context: None },
        bindings: Slots { params: Seq::empty(), lets: Seq::empty() },
    };
    assert forall|name: Seq<char>| #[trigger] taken(g, es, name) implies used.contains(name) by {
        let own = name_slots(g, none.bindings);
        assert(appended(es, none) == es);
        lemma_taken_extended(h, g, es, none, own, name);
    }
}

/// Reading a term that binds variables under names that are not in use gives the term.
proof fn lemma_reads_one(
    h: Heap,
    es: Seq<NodeView>,
    m: MetaId,
    t: IRTerm,
    used: Set<Seq<char>>,
    fuel: nat,
    next: u64,
)
    requires
        context_plain(h, es),
        es.len() + term_binders(t) <= u32::MAX,
        h.binds.len() + term_binders(t) <= usize::MAX,
        holds_term(h, m, t, scope(h, es)),
        covers(h, es, used),
        term_clear(used, t),
    ensures
        match read_one(h, es, m, false, false, fuel, next) {
            Ok((g, v, _)) => {
                &&& v == outline_term(t)
                &&& keeps(h, g, 0)
                &&& g.metas == h.metas
                &&& g.binds.len() == h.binds.len() + term_binders(t)
            },
            Err(f) => f != Fault::Malformed,
        },
    decreases t, 1nat, 0nat,
{
    if next + 2 * STRIDE <= u64::MAX {
        let b = h.metas[m as int].bindings;
        let own = own_names(t);
        assert(b.params.len() == bind_names(h, b.params).len());
        assert(b.lets.len() == bind_names(h, b.lets).len());
        assert(own.params.len() == t.params@.len());
        assert(own.lets.len() == t.lets@.len());
        assert forall|i: int| 0 <= i < b.params.len() implies !taken(
            h,
            es,
            #[trigger] bind_names(h, b.params)[i],
        ) by {
            assert(own.params[i] == bind_names(h, b.params)[i]);
        }
        assert forall|i: int| 0 <= i < b.lets.len() implies !taken(
            h,
            es,
            #[trigger] bind_names(h, b.lets)[i],
        ) by {
            assert(own.lets[i] == bind_names(h, b.lets)[i]);
        }
        lemma_renamed_names(h, b, es);
        let h1 = with_renamed(h, b, es, Polarity::Goal);
        let slots = renamed_slots(h, b);
        let node = NodeView {
            entry: vars_entry(next, (next + STRIDE) as u64),
            bindings: slots,
        };
        let ces = appended(es, node);
        lemma_scope_kept(h, h1, 0, es);
        lemma_context_extended(h1, es, node);
        lemma_term_kept(h, h1, 0, m, t, scope(h, es));
        let inner = with_names(used, own);
        assert forall|name: Seq<char>| #[trigger] taken(h1, ces, name) implies inner.contains(
            name,
        ) by {
            lemma_taken_extended(h, h1, es, node, own, name);
        }
        lemma_reads_lambda(h1, ces, m, slots, t, inner, fuel, (next + 2 * STRIDE) as u64);
        if let Ok((g, _, _)) = read_one(h, es, m, false, false, fuel, next) {
            lemma_keeps_trans(h, h1, g, 0);
        }
    }
}

/// Reading a term in a context that has what it binds gives the term.
proof fn lemma_reads_lambda(
    h: Heap,
    es: Seq<NodeView>,
    m: MetaId,
    slots: Slots<BindId>,
    t: IRTerm,
    used: Set<Seq<char>>,
    fuel: nat,
    next: u64,
)
    requires
        context_plain(h, es),
        es.len() + spine_binders(t.spine) <= u32::MAX,
        h.binds.len() + spine_binders(t.spine) <= usize::MAX,
        binds_present(h, slots.params),
        binds_present(h, slots.lets),
        name_slots(h, slots) == own_names(t),
        holds_spine(h, m, t.spine, scope(h, es)),
        covers(h, es, used),
        spine_clear(used, t.spine),
    ensures
        match read_lambda(h, TermView { base: m, es }, slots, false, false, fuel, next) {
            Ok((g, v, _)) => {
                &&& v == outline_term(t)
                &&& keeps(h, g, 0)
                &&& g.metas == h.metas
                &&& g.binds.len() == h.binds.len() + spine_binders(t.spine)
            },
            Err(f) => f != Fault::Malformed,
        },
    decreases t, 0nat, 0nat,
{
    if fuel > 1 {
        let tv = TermView { base: m, es };
        let a = h.metas[m as int].assignment->0;
        let d = a.head.0.0 as int;
        let s = t.spine;
        assert(scope(h, es)[d] == name_slots(h, es[d].bindings));
        assert(node_plain(h, es[d]));
        let node = es[d];
        let var = var_at(node, a.head.1);
        assert(node.bindings.has(a.head.1));
        assert(var.bind < h.binds.len() && h.binds[var.bind as int].name == s.head@) by {
            match a.head.1 {
                Index::Param(i) => {
                    assert(node.bindings.params[i as int] < h.binds.len());
                },
                Index::Let(i) => {
                    assert(node.bindings.lets[i as int] < h.binds.len());
                },
            }
        }
        lemma_reads_args(
            h,
            es,
            a.args,
            m + 1,
            s.args@,
            used,
            s.args@.len(),
            (fuel - 1) as nat,
            next,
        );
        lemma_outline(t, h, slots);
    }
}

proof fn lemma_outline(t: IRTerm, h: Heap, slots: Slots<BindId>)
    requires
        name_slots(h, slots) == own_names(t),
    ensures
        bind_names(h, slots.params) == outline_term(t).params,
        bare_lets(h, slots.lets) == outline_term(t).lets,
{
    assert(bind_names(h, slots.lets) == let_names(t.lets@));
    assert(bare_lets(h, slots.lets).len() == bind_names(h, slots.lets).len());
    assert forall|i: int| 0 <= i < t.lets@.len() implies bare_lets(h, slots.lets)[i]
        == outline_term(t).lets[i] by {
        assert(bind_names(h, slots.lets)[i] == let_names(t.lets@)[i]);
    }
    assert(bare_lets(h, slots.lets) =~= outline_term(t).lets);
}

proof fn lemma_reads_args(
    h: Heap,
    es: Seq<NodeView>,
    ms: Seq<MetaId>,
    lo: int,
    ts: Seq<IRTerm>,
    used: Set<Seq<char>>,
    k: nat,
    fuel: nat,
    next: u64,
)
    requires
        k <= ts.len() == ms.len(),
        context_plain(h, es),
        es.len() + terms_binders(ts, k) <= u32::MAX,
        h.binds.len() + terms_binders(ts, k) <= usize::MAX,
        holds_terms(h, ms, lo, ts, scope(h, es), k),
        covers(h, es, used),
        terms_clear(used, ts, k),
        0 <= lo,
    ensures
        match read_args(h, es, ms, false, false, k, fuel, next) {
            Ok((g, vs, _)) => {
                &&& vs == outline_terms(ts, k)
                &&& keeps(h, g, 0)
                &&& g.metas == h.metas
                &&& g.binds.len() == h.binds.len() + terms_binders(ts, k)
            },
            Err(f) => f != Fault::Malformed,
        },
    decreases ts, k, 0nat,
{
    if k > 0 {
        lemma_reads_args(h, es, ms, lo, ts, used, (k - 1) as nat, fuel, next);
        if let Ok((g, vs, n)) = read_args(h, es, ms, false, false, (k - 1) as nat, fuel, next) {
            lemma_scope_kept(h, g, 0, es);
            lemma_term_kept(h, g, 0, ms[k - 1], ts[k - 1], scope(h, es));
            lemma_covers_kept(h, g, es, used);
            lemma_reads_one(g, es, ms[k - 1], ts[k - 1], used, fuel, n);
            if let Ok((g2, _, _)) = read_one(g, es, ms[k - 1], false, false, fuel, n) {
                lemma_keeps_trans(h, g, g2, 0);
            }
        }
    }
}

/// A term that was written in a context, without hiding a name by another, is read back as it was
/// written, but for rules. Reading it fails only where it nests too deeply or identifiers run out.
pub proof fn law_term_reads_back(
    s: Progressed,
    t: IRTerm,
    es: Seq<NodeView>,
    polarity: Polarity,
    used: Set<Seq<char>>,
    fuel: nat,
    next: u64,
)
    requires
        context_plain(s.heap, es),
        es.len() + term_binders(t) <= u32::MAX,
        s.heap.binds.len() + 2 * term_binders(t) <= usize::MAX,
        covers(s.heap, es, used),
        term_clear(used, t),
    ensures
        term(s, t, es, polarity) matches Ok((s2, m, _)) ==> (s2.heap.metas.len() <= usize::MAX
            ==> match read_lambda(
            s2.heap,
            TermView { base: m, es: s2.heap.metas[m as int].gamma },
            s2.heap.metas[m as int].bindings,
            false,
            false,
            fuel,
            next,
        ) {
            Ok((_, v, _)) => v == outline_term(t),
            Err(f) => f != Fault::Malformed,
        }),
{
    lemma_term_holds(s, t, es, polarity);
    if let Ok((s2, m, _)) = term(s, t, es, polarity) {
        if s2.heap.metas.len() <= usize::MAX {
            lemma_extended(s, t, es, polarity.flipped());
            let s1 = extension(s, t.params@, t.lets@, es, polarity.flipped())->Ok_0;
            let ces = extended_es(s, t.params@, t.lets@, es);
            let b = new_bindings(s.heap, t.params@, t.lets@);
            let h = s2.heap;
            lemma_body_holds(s1, t.spine, ces, b, polarity);
            lemma_scope_kept(s1.heap, h, 0, ces);
            lemma_names_kept(s1.heap, h, 0, b);
            let inner = with_names(used, own_names(t));
            let node = NodeView {
                entry: vars_entry(s.next, (s.next + STRIDE) as u64),
                bindings: b,
            };
            assert forall|name: Seq<char>| #[trigger] taken(h, ces, name) implies inner.contains(
                name,
            ) by {
                lemma_taken_extended(s.heap, h, es, node, own_names(t), name);
            }
            lemma_reads_lambda(h, ces, m, b, t, inner, fuel, next);
        }
    }
}

/// The number of variables that are bound in the type.
pub open spec fn type_binders(t: IRType) -> nat
    decreases t, 0nat,
{
    t.codomain.params@.len() + t.codomain.lets@.len() + spine_binders(t.codomain.spine)
        + parts_binders(t.params@, t.params@.len()) + parts_binders(t.lets@, t.lets@.len())
}

/// The number of variables that are bound in the first `k` types.
pub open spec fn parts_binders(ts: Seq<Option<IRType>>, k: nat) -> nat
    decreases ts, k,
{
    if k == 0 || k > ts.len() {
        0
    } else {
        parts_binders(ts, (k - 1) as nat) + match ts[k - 1] {
            None => 0,
            Some(t) => type_binders(t),
        }
    }
}

/// Whether `tb` is the type `t` in a context with the given names: its codomain is the spine of the
/// codomain of `t`, under the names that `t` binds, and so is the type of each parameter and of
/// each let declaration, where it is known.
pub open spec fn holds_type(h: Heap, tb: TbView, t: IRType, sc: Seq<Slots<Seq<char>>>) -> bool
    decreases t, 0nat,
{
    &&& tb.codomain < h.metas.len()
    &&& name_slots(h, h.metas[tb.codomain as int].bindings) == own_names(t.codomain)
    &&& binds_present(h, h.metas[tb.codomain as int].bindings.params)
    &&& binds_present(h, h.metas[tb.codomain as int].bindings.lets)
    &&& holds_spine(h, tb.codomain, t.codomain.spine, scope_with(sc, own_names(t.codomain)))
    &&& holds_parts(h, tb.params, t.params@, scope_with(sc, own_names(t.codomain)))
    &&& holds_parts(h, tb.lets, t.lets@, scope_with(sc, own_names(t.codomain)))
}

/// Whether what is known of each of the types `ts` is the one in its place.
pub open spec fn holds_parts(
    h: Heap,
    tbs: Seq<Option<TbView>>,
    ts: Seq<Option<IRType>>,
    sc: Seq<Slots<Seq<char>>>,
) -> bool
    decreases ts, 0nat,
{
    &&& tbs.len() == ts.len()
    &&& forall|i: int|
        0 <= i < ts.len() ==> match (tbs[i], #[trigger] ts[i]) {
            (None, None) => true,
            (Some(tb), Some(t)) => holds_type(h, tb, t, sc),
            _ => false,
        }
}

proof fn lemma_type_kept(
    h: Heap,
    g: Heap,
    tb: TbView,
    t: IRType,
    sc: Seq<Slots<Seq<char>>>,
)
    requires
        keeps(h, g, 0),
        holds_type(h, tb, t, sc),
    ensures
        holds_type(g, tb, t, sc),
    decreases t, 0nat,
{
    let inner = scope_with(sc, own_names(t.codomain));
    assert(g.metas[tb.codomain as int] == h.metas[tb.codomain as int]);
    lemma_names_kept(h, g, 0, h.metas[tb.codomain as int].bindings);
    lemma_spine_kept(h, g, 0, tb.codomain, t.codomain.spine, inner);
    lemma_parts_kept(h, g, tb.params, t.params@, inner);
    lemma_parts_kept(h, g, tb.lets, t.lets@, inner);
}

proof fn lemma_parts_kept(
    h: Heap,
    g: Heap,
    tbs: Seq<Option<TbView>>,
    ts: Seq<Option<IRType>>,
    sc: Seq<Slots<Seq<char>>>,
)
    requires
        keeps(h, g, 0),
        holds_parts(h, tbs, ts, sc),
    ensures
        holds_parts(g, tbs, ts, sc),
    decreases ts, 0nat,
{
    assert forall|i: int| 0 <= i < ts.len() implies match (tbs[i], #[trigger] ts[i]) {
        (None, None) => true,
        (Some(tb), Some(t)) => holds_type(g, tb, t, sc),
        _ => false,
    } by {
        if let (Some(tb), Some(t)) = (tbs[i], ts[i]) {
            lemma_type_kept(h, g, tb, t, sc);
        }
    }
}

/// The parts of a type that have been elaborated so far.
pub open spec fn holds_some(
    h: Heap,
    tbs: Seq<Option<TbView>>,
    ts: Seq<Option<IRType>>,
    sc: Seq<Slots<Seq<char>>>,
    k: nat,
) -> bool {
    &&& tbs.len() == k
    &&& forall|i: int|
        0 <= i < k ==> match (tbs[i], #[trigger] ts[i]) {
            (None, None) => true,
            (Some(tb), Some(t)) => holds_type(h, tb, t, sc),
            _ => false,
        }
}

proof fn lemma_some_kept(
    h: Heap,
    g: Heap,
    tbs: Seq<Option<TbView>>,
    ts: Seq<Option<IRType>>,
    sc: Seq<Slots<Seq<char>>>,
    k: nat,
)
    requires
        keeps(h, g, 0),
        holds_some(h, tbs, ts, sc, k),
    ensures
        holds_some(g, tbs, ts, sc, k),
{
    assert forall|i: int| 0 <= i < k implies match (tbs[i], #[trigger] ts[i]) {
        (None, None) => true,
        (Some(tb), Some(t)) => holds_type(g, tb, t, sc),
        _ => false,
    } by {
        if let (Some(tb), Some(t)) = (tbs[i], ts[i]) {
            lemma_type_kept(h, g, tb, t, sc);
        }
    }
}

pub proof fn lemma_parts_hold(
    s: Progressed,
    ts: Seq<Option<IRType>>,
    es: Seq<NodeView>,
    polarity: Polarity,
    k: nat,
)
    requires
        k <= ts.len(),
        context_plain(s.heap, es),
        es.len() + parts_binders(ts, k) <= u32::MAX,
        s.heap.binds.len() + parts_binders(ts, k) <= usize::MAX,
    ensures
        typ_parts(s, ts, es, polarity, k) matches Ok((s2, tbs, _)) ==> {
            &&& s.heap.metas.len() <= s2.heap.metas.len()
            &&& s2.heap.metas.len() <= usize::MAX ==> {
                &&& s2.heap.binds.len() == s.heap.binds.len() + parts_binders(ts, k)
                &&& keeps(s.heap, s2.heap, 0)
                &&& holds_some(s2.heap, tbs, ts, scope(s.heap, es), k)
            }
        },
    decreases ts, k,
{
    if k > 0 {
        let l = (k - 1) as nat;
        lemma_parts_hold(s, ts, es, polarity, l);
        if let Ok((s1, made, _)) = typ_parts(s, ts, es, polarity, l) {
            if let Some(t) = ts[k - 1] {
                crate::typed::lemma_type_grows(s1, t, es, polarity);
                if s1.heap.metas.len() <= usize::MAX {
                    lemma_scope_kept(s.heap, s1.heap, 0, es);
                    lemma_type_holds(s1, t, es, polarity);
                    if let Ok((s2, tb, _)) = typ(s1, t, es, polarity) {
                        if s2.heap.metas.len() <= usize::MAX {
                            lemma_keeps_trans(s.heap, s1.heap, s2.heap, 0);
                            let sc = scope(s.heap, es);
                            lemma_some_kept(s1.heap, s2.heap, made, ts, sc, l);
                            let all = made.push(Some(tb));
                            assert forall|i: int| 0 <= i < k implies match (
                                all[i],
                                #[trigger] ts[i],
                            ) {
                                (None, None) => true,
                                (Some(a), Some(b)) => holds_type(s2.heap, a, b, sc),
                                _ => false,
                            } by {
                                if i < l {
                                    assert(all[i] == made[i]);
                                }
                            }
                        }
                    }
                }
            } else if s1.heap.metas.len() <= usize::MAX {
                let all = made.push(None::<TbView>);
                let sc = scope(s.heap, es);
                assert forall|i: int| 0 <= i < k implies match (all[i], #[trigger] ts[i]) {
                    (None, None) => true,
                    (Some(a), Some(b)) => holds_type(s1.heap, a, b, sc),
                    _ => false,
                } by {
                    if i < l {
                        assert(all[i] == made[i]);
                    }
                }
            }
        }
    }
}

pub proof fn lemma_type_holds(s: Progressed, t: IRType, es: Seq<NodeView>, polarity: Polarity)
    requires
        context_plain(s.heap, es),
        es.len() + type_binders(t) <= u32::MAX,
        s.heap.binds.len() + type_binders(t) <= usize::MAX,
    ensures
        typ(s, t, es, polarity) matches Ok((s2, tb, _)) ==> {
            &&& s.heap.metas.len() <= s2.heap.metas.len()
            &&& s2.heap.metas.len() <= usize::MAX ==> {
                &&& s2.heap.binds.len() == s.heap.binds.len() + type_binders(t)
                &&& keeps(s.heap, s2.heap, 0)
                &&& holds_type(s2.heap, tb, t, scope(s.heap, es))
            }
        },
    decreases t, 0nat,
{
    crate::typed::lemma_type_grows(s, t, es, polarity);
    if let Ok((s5, tb, _)) = typ(s, t, es, polarity) {
        if s5.heap.metas.len() <= usize::MAX {
            let c = t.codomain;
            let p = polarity.flipped();
            let s1 = extension(s, c.params@, c.lets@, es, p)->Ok_0;
            lemma_extended(s, c, es, p);
            let ces = extended_es(s, c.params@, c.lets@, es);
            let b = new_bindings(s.heap, c.params@, c.lets@);
            let inner = scope(s1.heap, ces);
            let (s2, m, _) = body(s1, c.spine, ces, b, polarity)->Ok_0;
            lemma_body_holds(s1, c.spine, ces, b, polarity);
            crate::typed::lemma_parts_grow(s2, t.params@, ces, p, t.params@.len());
            let (s3, params, _) = typ_parts(s2, t.params@, ces, p, t.params@.len())->Ok_0;
            crate::typed::lemma_parts_grow(s3, t.lets@, ces, p, t.lets@.len());
            let (s4, lets, _) = typ_parts(s3, t.lets@, ces, p, t.lets@.len())->Ok_0;
            lemma_scope_kept(s1.heap, s2.heap, 0, ces);
            lemma_parts_hold(s2, t.params@, ces, p, t.params@.len());
            lemma_scope_kept(s2.heap, s3.heap, 0, ces);
            lemma_parts_hold(s3, t.lets@, ces, p, t.lets@.len());
            let h = s4.heap;
            lemma_keeps_trans(s2.heap, s3.heap, h, 0);
            lemma_keeps_trans(s1.heap, s2.heap, h, 0);
            lemma_keeps_trans(s.heap, s1.heap, h, 0);
            lemma_spine_kept(s2.heap, h, 0, m, c.spine, inner);
            assert(h.metas[m as int] == s2.heap.metas[m as int]);
            lemma_names_kept(s1.heap, h, 0, b);
            lemma_some_kept(s3.heap, h, params, t.params@, inner, t.params@.len());
            assert(holds_parts(h, params, t.params@, inner));
            assert(holds_parts(h, lets, t.lets@, inner));
        }
    }
}

/// A type that was written in a context is elaborated as it was written: with as many parameters
/// and let declarations, of the names that are written, each with the type that is written for it
/// where there is one, and with the codomain that is written.
pub proof fn law_type_elaborated(s: Progressed, t: IRType, es: Seq<NodeView>, polarity: Polarity)
    requires
        context_plain(s.heap, es),
        es.len() + type_binders(t) <= u32::MAX,
        s.heap.binds.len() + type_binders(t) <= usize::MAX,
    ensures
        typ(s, t, es, polarity) matches Ok((s2, tb, _)) ==> (s2.heap.metas.len() <= usize::MAX
            ==> holds_type(s2.heap, tb, t, scope(s.heap, es))),
{
    lemma_type_holds(s, t, es, polarity);
}

} // verus!
