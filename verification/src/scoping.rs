//! Which variables a type depends on, and on which side its variables stand.
use crate::data::{MetaId, NodeView, Var};
use crate::elaborate::{
    body, body_args, escaping, extended_es, extension, new_bindings, original_assignment,
    original_meta, term, var_key, Progressed,
};
use crate::equality::any;
use crate::es::{first_named, level, level_vars, var_at, variables, vars_from};
use crate::ids::STRIDE;
use crate::index::{DeBruijn, DeBruijnIndex, Index, Polarity};
use crate::ir::{IRSpine, IRTerm, IRType};
use crate::memory::Heap;
use crate::names::binds_present;
use crate::roundtrip::{
    context_plain, lemma_args_hold, lemma_body_holds, lemma_extended, lemma_parts_hold,
    lemma_scope_kept, parts_binders, spine_binders, term_binders, terms_binders, type_binders,
};
use crate::typed::{
    law_bucket_rows, lemma_levels, lemma_parts_grow, lemma_type_grows, lemma_used_levels, typ,
    typ_parts, used_among, used_rows, TbView,
};
use vstd::prelude::*;

verus! {

/// Whether `k` is a variable of the context.
pub open spec fn known(es: Seq<NodeView>, k: (u64, Index)) -> bool {
    exists|d: int|
        0 <= d < es.len() && ((#[trigger] es[d]).entry.params_id == k.0 || es[d].entry.lets_id
            == k.0)
}

/// Whether the identifiers in the context come before `next`.
pub open spec fn dated(es: Seq<NodeView>, next: u64) -> bool {
    forall|d: int|
        0 <= d < es.len() ==> (#[trigger] es[d]).entry.params_id < next && es[d].entry.lets_id
            < next
}

/// Whether the term of `m`, which was written as `s`, uses the goal `k`: it is the head, or an
/// argument uses it.
pub open spec fn uses(h: Heap, m: MetaId, s: IRSpine, k: (u64, Index)) -> bool
    decreases s,
{
    let a = h.metas[m as int].assignment->0;
    let v = var_at(h.metas[m as int].gamma[a.head.0.0 as int], a.head.1);
    ||| var_key(v) == k && h.binds[v.bind as int].polarity is Goal
    ||| exists|i: int| #[trigger]
        any(i) && 0 <= i < s.args@.len() && uses(h, a.args[i], s.args@[i].spine, k)
}

/// Whether the type `tb`, which was written as `t`, uses the goal `k`: in its codomain, or in the
/// type of a parameter or a let declaration.
pub open spec fn type_uses(h: Heap, tb: TbView, t: IRType, k: (u64, Index)) -> bool
    decreases t, 0nat,
{
    ||| uses(h, tb.codomain, t.codomain.spine, k)
    ||| parts_use(h, tb.params, t.params@, k)
    ||| parts_use(h, tb.lets, t.lets@, k)
}

/// Whether one of the types uses the goal `k`.
pub open spec fn parts_use(
    h: Heap,
    tbs: Seq<Option<TbView>>,
    ts: Seq<Option<IRType>>,
    k: (u64, Index),
) -> bool
    decreases ts, 0nat,
{
    exists|i: int| #[trigger]
        any(i) && 0 <= i < ts.len() && match (tbs[i], ts[i]) {
            (Some(tb), Some(t)) => type_uses(h, tb, t, k),
            _ => false,
        }
}

/// Whether the variables that `m` binds stand on the side `p`.
pub open spec fn binds_on(h: Heap, m: MetaId, p: Polarity) -> bool {
    let b = h.metas[m as int].bindings;
    &&& binds_present(h, b.params)
    &&& binds_present(h, b.lets)
    &&& forall|i: int|
        0 <= i < b.params.len() ==> h.binds[#[trigger] b.params[i] as int].polarity == p
    &&& forall|i: int| 0 <= i < b.lets.len() ==> h.binds[#[trigger] b.lets[i] as int].polarity == p
}

/// Whether the metavariable `m`, from `lo` on, is a term of the shape of `s`, whose arguments bind
/// variables on the side `p`.
pub open spec fn shaped(h: Heap, m: MetaId, s: IRSpine, lo: int, p: Polarity) -> bool
    decreases s,
{
    let a = h.metas[m as int].assignment->0;
    &&& h.assigned(m)
    &&& lo <= m
    &&& a.head.0.0 < h.metas[m as int].gamma.len()
    &&& h.metas[m as int].gamma[a.head.0.0 as int].bindings.at(a.head.1) < h.binds.len()
    &&& a.args.len() == s.args@.len()
    &&& forall|i: int| #[trigger]
        any(i) && 0 <= i < s.args@.len() ==> binds_on(h, a.args[i], p) && shaped(
            h,
            a.args[i],
            s.args@[i].spine,
            lo,
            p,
        )
}

/// Whether the type `tb`, which was written as `t`, tells which goals it depends on, and binds
/// variables on the side opposite to `p`: of each level of its context it lists the parameters
/// that its codomain uses, and those that the types of its parameters and let declarations use. The
/// same holds of those types, on the other side.
pub open spec fn marked(h: Heap, tb: TbView, t: IRType, p: Polarity) -> bool
    decreases t, 0nat,
{
    let es = h.metas[tb.codomain as int].gamma;
    &&& shaped(h, tb.codomain, t.codomain.spine, 0, p.flipped())
    &&& binds_on(h, tb.codomain, p.flipped())
    &&& tb.codomain_mvars.len() == es.len()
    &&& tb.types_mvars.len() == es.len()
    &&& forall|d: int, i: usize|
        0 <= d < es.len() ==> (#[trigger] tb.codomain_mvars[d].contains(i) <==> i
            < es[d].bindings.params.len() && uses(
            h,
            tb.codomain,
            t.codomain.spine,
            (es[d].entry.params_id, Index::Param(i)),
        ))
    &&& forall|d: int, i: usize|
        0 <= d < es.len() ==> (#[trigger] tb.types_mvars[d].contains(i) <==> i
            < es[d].bindings.params.len() && (parts_use(
            h,
            tb.params,
            t.params@,
            (es[d].entry.params_id, Index::Param(i)),
        ) || parts_use(h, tb.lets, t.lets@, (es[d].entry.params_id, Index::Param(i)))))
    &&& parts_marked(h, tb.params, t.params@, p.flipped())
    &&& parts_marked(h, tb.lets, t.lets@, p.flipped())
}

/// Whether all of the types tell which goals they depend on.
pub open spec fn parts_marked(
    h: Heap,
    tbs: Seq<Option<TbView>>,
    ts: Seq<Option<IRType>>,
    p: Polarity,
) -> bool
    decreases ts, 0nat,
{
    forall|i: int|
        0 <= i < ts.len() ==> match (tbs[i], #[trigger] ts[i]) {
            (Some(tb), Some(t)) => marked(h, tb, t, p),
            (None, None) => true,
            _ => false,
        }
}

/// Whether `g` has what `h` has: the metavariables from `lo` on, and the binds.
spec fn extends(h: Heap, g: Heap, lo: int) -> bool {
    &&& h.metas.len() <= g.metas.len()
    &&& forall|x: int| lo <= x < h.metas.len() ==> #[trigger] g.metas[x] == h.metas[x]
    &&& h.binds.len() <= g.binds.len()
    &&& forall|b: int| 0 <= b < h.binds.len() ==> #[trigger] g.binds[b] == h.binds[b]
}

proof fn lemma_extends_trans(a: Heap, b: Heap, c: Heap, lo: int)
    requires
        extends(a, b, lo),
        extends(b, c, lo),
    ensures
        extends(a, c, lo),
{
    assert forall|x: int| lo <= x < a.metas.len() implies #[trigger] c.metas[x] == a.metas[x] by {
        assert(b.metas[x] == a.metas[x]);
    }
    assert forall|x: int| 0 <= x < a.binds.len() implies #[trigger] c.binds[x] == a.binds[x] by {
        assert(b.binds[x] == a.binds[x]);
    }
}

proof fn lemma_binds_on_kept(h: Heap, g: Heap, lo: int, m: MetaId, p: Polarity)
    requires
        extends(h, g, lo),
        lo <= m < h.metas.len(),
        binds_on(h, m, p),
    ensures
        binds_on(g, m, p),
{
    let b = h.metas[m as int].bindings;
    assert(g.metas[m as int] == h.metas[m as int]);
    assert forall|i: int| 0 <= i < b.params.len() implies g.binds[#[trigger] b.params[i] as int]
        == h.binds[b.params[i] as int] by {
        assert(b.params[i] < h.binds.len());
    }
    assert forall|i: int| 0 <= i < b.lets.len() implies g.binds[#[trigger] b.lets[i] as int]
        == h.binds[b.lets[i] as int] by {
        assert(b.lets[i] < h.binds.len());
    }
}

proof fn lemma_shaped_present(h: Heap, m: MetaId, s: IRSpine, lo: int, p: Polarity)
    requires
        shaped(h, m, s, lo, p),
    ensures
        lo <= m < h.metas.len(),
{
}

proof fn lemma_shaped_kept(h: Heap, g: Heap, m: MetaId, s: IRSpine, lo: int, p: Polarity)
    requires
        extends(h, g, lo),
        shaped(h, m, s, lo, p),
    ensures
        shaped(g, m, s, lo, p),
        forall|k: (u64, Index)| #[trigger] uses(g, m, s, k) == uses(h, m, s, k),
    decreases s,
{
    let a = h.metas[m as int].assignment->0;
    let args = s.args@;
    assert(g.metas[m as int] == h.metas[m as int]);
    assert forall|i: int| #[trigger] any(i) && 0 <= i < args.len() implies binds_on(
        g,
        a.args[i],
        p,
    ) && shaped(g, a.args[i], args[i].spine, lo, p) && forall|k: (u64, Index)| #[trigger]
        uses(g, a.args[i], args[i].spine, k) == uses(h, a.args[i], args[i].spine, k) by {
        lemma_shaped_kept(h, g, a.args[i], args[i].spine, lo, p);
        lemma_shaped_present(h, a.args[i], args[i].spine, lo, p);
        lemma_binds_on_kept(h, g, lo, a.args[i], p);
    }
    let v = var_at(h.metas[m as int].gamma[a.head.0.0 as int], a.head.1);
    assert(g.binds[v.bind as int] == h.binds[v.bind as int]);
    assert forall|k: (u64, Index)| #[trigger] uses(g, m, s, k) == uses(h, m, s, k) by {
        if uses(g, m, s, k) && !(var_key(v) == k && h.binds[v.bind as int].polarity is Goal) {
            let i = choose|i: int| #[trigger]
                any(i) && 0 <= i < args.len() && uses(g, a.args[i], args[i].spine, k);
            assert(any(i) && uses(h, a.args[i], args[i].spine, k));
        }
        if uses(h, m, s, k) && !(var_key(v) == k && h.binds[v.bind as int].polarity is Goal) {
            let i = choose|i: int| #[trigger]
                any(i) && 0 <= i < args.len() && uses(h, a.args[i], args[i].spine, k);
            assert(any(i) && uses(g, a.args[i], args[i].spine, k));
        }
    }
}

proof fn lemma_shaped_above(h: Heap, m: MetaId, s: IRSpine, lo: int, l: int, p: Polarity)
    requires
        shaped(h, m, s, lo, p),
        l <= lo,
    ensures
        shaped(h, m, s, l, p),
    decreases s,
{
    let a = h.metas[m as int].assignment->0;
    assert forall|i: int| #[trigger] any(i) && 0 <= i < s.args@.len() implies shaped(
        h,
        a.args[i],
        s.args@[i].spine,
        l,
        p,
    ) by {
        lemma_shaped_above(h, a.args[i], s.args@[i].spine, lo, l, p);
    }
}

/// A variable of a context stands where its index says.
proof fn lemma_var_place(es: Seq<NodeView>, d: int, k: int)
    requires
        es.len() <= u32::MAX,
        0 <= d,
        0 <= k < vars_from(es, d).len(),
    ensures
        ({
            let (db, v) = vars_from(es, d)[k];
            &&& db.0.0 < es.len()
            &&& es[db.0.0 as int].bindings.has(db.1)
            &&& v == var_at(es[db.0.0 as int], db.1)
        }),
    decreases es.len() - d,
{
    let here = level_vars(es, d);
    if k < here.len() {
        assert(vars_from(es, d)[k] == here[k]);
        assert(es[d].bindings.order()[k] == here[k].0.1);
        assert(level(d).0 == d) by {
            assert(d % 0x1_0000_0000 == d);
        }
    } else {
        assert(vars_from(es, d)[k] == vars_from(es, d + 1)[k - here.len()]);
        lemma_var_place(es, d + 1, k - here.len());
    }
}

proof fn lemma_var_listed(es: Seq<NodeView>, from: int, d: int, i: usize) -> (k: int)
    requires
        0 <= from <= d < es.len() <= u32::MAX,
        i < es[d].bindings.params.len(),
    ensures
        0 <= k < vars_from(es, from).len(),
        vars_from(es, from)[k].0 == DeBruijnIndex(DeBruijn(d as u32), Index::Param(i)),
    decreases d - from,
{
    let here = level_vars(es, from);
    if from == d {
        let b = es[d].bindings;
        let k: int = b.params.len() - 1 - i;
        assert(b.order()[k] == Index::Param(i));
        assert(vars_from(es, from)[k] == here[k]);
        assert(level(d).0 == d) by {
            assert(d % 0x1_0000_0000 == d);
        }
        k
    } else {
        let k = lemma_var_listed(es, from + 1, d, i);
        assert(vars_from(es, from)[here.len() + k] == vars_from(es, from + 1)[k]);
        here.len() + k
    }
}

proof fn lemma_named_listed(h: Heap, vars: Seq<(DeBruijnIndex, Var)>, name: Seq<char>, k: int)
    requires
        0 <= k,
    ensures
        first_named(h, vars, name, k) matches Some(x) ==> vars.contains(x),
    decreases vars.len() - k,
{
    if k < vars.len() {
        lemma_named_listed(h, vars, name, k + 1);
        assert(vars.contains(vars[k]));
    }
}

proof fn lemma_used_among(
    vars: Seq<(DeBruijnIndex, Var)>,
    used: Set<(u64, Index)>,
    k: nat,
    x: DeBruijnIndex,
)
    requires
        k <= vars.len(),
    ensures
        used_among(vars, used, k).contains(x) <==> exists|j: int|
            0 <= j < k && (#[trigger] vars[j]).0 == x && used.contains(var_key(vars[j].1)),
    decreases k,
{
    if k > 0 {
        lemma_used_among(vars, used, (k - 1) as nat, x);
        let before = used_among(vars, used, (k - 1) as nat);
        let last = vars[k - 1];
        let all = used_among(vars, used, k);
        if all.contains(x) {
            let j = choose|j: int| 0 <= j < all.len() && all[j] == x;
            if j < before.len() {
                assert(before[j] == x);
                let e = choose|e: int|
                    0 <= e < k - 1 && (#[trigger] vars[e]).0 == x && used.contains(
                        var_key(vars[e].1),
                    );
                assert(vars[e].0 == x);
            } else {
                assert(vars[k - 1].0 == x);
            }
        }
        if exists|j: int|
            0 <= j < k && (#[trigger] vars[j]).0 == x && used.contains(var_key(vars[j].1)) {
            let j = choose|j: int|
                0 <= j < k && (#[trigger] vars[j]).0 == x && used.contains(var_key(vars[j].1));
            if j < k - 1 {
                assert(before.contains(x));
                let e = choose|e: int| 0 <= e < before.len() && before[e] == x;
                assert(all[e] == x);
            } else {
                assert(all[before.len() as int] == x);
            }
        }
    }
}

/// The rows list the parameters that are used, at each level.
proof fn lemma_rows(es: Seq<NodeView>, used: Set<(u64, Index)>, d: int, i: usize)
    requires
        es.len() <= u32::MAX,
        0 <= d < es.len(),
    ensures
        used_rows(es, used)[d].contains(i) <==> i < es[d].bindings.params.len() && used.contains(
            (es[d].entry.params_id, Index::Param(i)),
        ),
{
    let vars = variables(es);
    let dbs = used_among(vars, used, vars.len());
    lemma_levels(es, 0);
    lemma_used_levels(vars, used, vars.len(), es.len());
    law_bucket_rows(dbs, es.len(), d as u32, i);
    let x = DeBruijnIndex(DeBruijn(d as u32), Index::Param(i));
    lemma_used_among(vars, used, vars.len(), x);
    if dbs.contains(x) {
        let j = choose|j: int|
            0 <= j < vars.len() && (#[trigger] vars[j]).0 == x && used.contains(
                var_key(vars[j].1),
            );
        lemma_var_place(es, 0, j);
    }
    if i < es[d].bindings.params.len() && used.contains(
        (es[d].entry.params_id, Index::Param(i)),
    ) {
        let j = lemma_var_listed(es, 0, d, i);
        lemma_var_place(es, 0, j);
        assert(vars[j].0 == x);
    }
}

proof fn lemma_rows_len(es: Seq<NodeView>, used: Set<(u64, Index)>)
    ensures
        used_rows(es, used).len() == es.len(),
{
    let vars = variables(es);
    let dbs = used_among(vars, used, vars.len());
    lemma_levels(es, 0);
    lemma_used_levels(vars, used, vars.len(), es.len());
    crate::typed::lemma_bucketed_len(dbs, dbs.len(), es.len());
}

/// What elaborating a spine leaves behind.
spec fn spine_done(
    s: Progressed,
    s2: Progressed,
    m: MetaId,
    spine: IRSpine,
    es: Seq<NodeView>,
    p: Polarity,
    used: Set<(u64, Index)>,
) -> bool {
    &&& s.next <= s2.next
    &&& extends(s.heap, s2.heap, 0)
    &&& shaped(s2.heap, m, spine, s.heap.metas.len() as int, p.flipped())
    &&& forall|k: (u64, Index)| #[trigger]
        used.contains(k) <==> known(es, k) && uses(s2.heap, m, spine, k)
}

proof fn lemma_body_uses(
    s: Progressed,
    spine: IRSpine,
    es: Seq<NodeView>,
    bindings: crate::index::Slots<usize>,
    polarity: Polarity,
)
    requires
        context_plain(s.heap, es),
        dated(es, s.next),
        es.len() + spine_binders(spine) <= u32::MAX,
        s.heap.binds.len() + spine_binders(spine) <= usize::MAX,
    ensures
        body(s, spine, es, bindings, polarity) matches Ok((s2, m, used)) ==> (s2.heap.metas.len()
            <= usize::MAX ==> spine_done(s, s2, m, spine, es, polarity, used)),
    decreases spine, 0nat,
{
    lemma_body_holds(s, spine, es, bindings, polarity);
    if let Ok((s3, m, used)) = body(s, spine, es, bindings, polarity) {
        if s3.heap.metas.len() <= usize::MAX {
            let (head, var) = first_named(s.heap, variables(es), spine.head@, 0)->0;
            lemma_named_listed(s.heap, variables(es), spine.head@, 0);
            let j = choose|j: int| 0 <= j < variables(es).len() && variables(es)[j] == (head, var);
            lemma_var_place(es, 0, j);
            let d = head.0.0 as int;
            let s1 = Progressed {
                heap: Heap { metas: s.heap.metas.push(original_meta(es, bindings)), ..s.heap },
                ..s
            };
            let n = spine.args@.len();
            assert(crate::roundtrip::keeps(s.heap, s1.heap, 0));
            lemma_scope_kept(s.heap, s1.heap, 0, es);
            lemma_args_uses(s1, spine.args@, es, polarity, n);
            lemma_args_hold(s1, spine.args@, es, polarity, n);
            let (s2, args, more) = body_args(s1, spine.args@, es, polarity, n)->Ok_0;
            let g = s3.heap;
            assert(s2.heap.metas.len() == g.metas.len());
            let lo = s1.heap.metas.len() as int;
            assert(lo == m + 1);
            assert(extends(s2.heap, g, lo));
            assert(s2.heap.metas[m as int] == s1.heap.metas[m as int]);
            assert forall|x: int| 0 <= x < s.heap.metas.len() implies #[trigger] g.metas[x]
                == s.heap.metas[x] by {
                assert(s2.heap.metas[x] == s1.heap.metas[x]);
            }
            let a = g.metas[m as int].assignment->0;
            assert(a == original_assignment(head, args, var.bind));
            assert(crate::roundtrip::node_plain(s.heap, es[d]));
            assert(var.bind < s.heap.binds.len()) by {
                match head.1 {
                    Index::Param(i) => {
                        assert(es[d].bindings.params[i as int] < s.heap.binds.len());
                    },
                    Index::Let(i) => {
                        assert(es[d].bindings.lets[i as int] < s.heap.binds.len());
                    },
                }
            }
            assert(g.binds[var.bind as int] == s.heap.binds[var.bind as int]) by {
                assert(s2.heap.binds[var.bind as int] == s1.heap.binds[var.bind as int]);
            }
            let p = polarity.flipped();
            assert forall|i: int| #[trigger] any(i) && 0 <= i < n implies {
                &&& binds_on(g, args[i], p)
                &&& shaped(g, args[i], spine.args@[i].spine, m as int, p)
                &&& forall|k: (u64, Index)| #[trigger]
                    uses(g, args[i], spine.args@[i].spine, k) == uses(
                        s2.heap,
                        args[i],
                        spine.args@[i].spine,
                        k,
                    )
            } by {
                let t = spine.args@[i];
                lemma_shaped_kept(s2.heap, g, args[i], t.spine, lo, p);
                lemma_shaped_present(s2.heap, args[i], t.spine, lo, p);
                lemma_binds_on_kept(s2.heap, g, lo, args[i], p);
                lemma_shaped_above(g, args[i], t.spine, lo, m as int, p);
            }
            assert(shaped(g, m, spine, m as int, p));
            assert forall|k: (u64, Index)| #[trigger] used.contains(k) <==> known(es, k) && uses(
                g,
                m,
                spine,
                k,
            ) by {
                assert(es[d].entry.params_id == var_key(var).0 || es[d].entry.lets_id == var_key(
                    var,
                ).0);
                assert(known(es, var_key(var)));
                if more.contains(k) {
                    let i = choose|i: int| #[trigger]
                        any(i) && 0 <= i < n && uses(s2.heap, args[i], spine.args@[i].spine, k);
                    assert(any(i) && uses(g, args[i], spine.args@[i].spine, k));
                }
                if exists|i: int| #[trigger]
                    any(i) && 0 <= i < n && uses(g, args[i], spine.args@[i].spine, k) {
                    let i = choose|i: int| #[trigger]
                        any(i) && 0 <= i < n && uses(g, args[i], spine.args@[i].spine, k);
                    assert(any(i) && uses(s2.heap, args[i], spine.args@[i].spine, k));
                }
            }
        }
    }
}

/// What elaborating arguments leaves behind.
spec fn args_done(
    s: Progressed,
    s2: Progressed,
    ms: Seq<MetaId>,
    args: Seq<IRTerm>,
    es: Seq<NodeView>,
    p: Polarity,
    k: nat,
    used: Set<(u64, Index)>,
) -> bool {
    &&& s.next <= s2.next
    &&& extends(s.heap, s2.heap, 0)
    &&& ms.len() == k
    &&& forall|i: int| #[trigger]
        any(i) && 0 <= i < k ==> binds_on(s2.heap, ms[i], p.flipped()) && shaped(
            s2.heap,
            ms[i],
            args[i].spine,
            s.heap.metas.len() as int,
            p.flipped(),
        )
    &&& forall|key: (u64, Index)| #[trigger]
        used.contains(key) <==> known(es, key) && exists|i: int| #[trigger]
            any(i) && 0 <= i < k && uses(s2.heap, ms[i], args[i].spine, key)
}

proof fn lemma_args_uses(
    s: Progressed,
    args: Seq<IRTerm>,
    es: Seq<NodeView>,
    polarity: Polarity,
    k: nat,
)
    requires
        k <= args.len(),
        context_plain(s.heap, es),
        dated(es, s.next),
        es.len() + terms_binders(args, k) <= u32::MAX,
        s.heap.binds.len() + terms_binders(args, k) <= usize::MAX,
    ensures
        body_args(s, args, es, polarity, k) matches Ok((s2, ms, used)) ==> (s2.heap.metas.len()
            <= usize::MAX ==> args_done(s, s2, ms, args, es, polarity, k, used)),
    decreases args, k,
{
    if k > 0 {
        let l = (k - 1) as nat;
        lemma_args_uses(s, args, es, polarity, l);
        lemma_args_hold(s, args, es, polarity, l);
        if let Ok((s2, all, used)) = body_args(s, args, es, polarity, k) {
            if s2.heap.metas.len() <= usize::MAX {
                let (s1, ms, before) = body_args(s, args, es, polarity, l)->Ok_0;
                let t = args[l as int];
                crate::elaborate::lemma_term_grows(s1, t, es, polarity);
                lemma_scope_kept(s.heap, s1.heap, 0, es);
                assert(dated(es, s1.next));
                lemma_term_uses(s1, t, es, polarity);
                let (_, m, more) = term(s1, t, es, polarity)->Ok_0;
                let (h1, h2) = (s1.heap, s2.heap);
                lemma_extends_trans(s.heap, h1, h2, 0);
                let (lo, p) = (s.heap.metas.len() as int, polarity.flipped());
                lemma_shaped_above(h2, m, t.spine, h1.metas.len() as int, lo, p);
                assert(extends(h1, h2, lo));
                assert forall|i: int| #[trigger] any(i) && 0 <= i < k implies binds_on(
                    h2,
                    all[i],
                    p,
                ) && shaped(h2, all[i], args[i].spine, lo, p) && (i < l ==> all[i] == ms[i]
                    && forall|key: (u64, Index)| #[trigger]
                    uses(h2, all[i], args[i].spine, key) == uses(
                        h1,
                        ms[i],
                        args[i].spine,
                        key,
                    )) by {
                    if i < l {
                        lemma_shaped_kept(h1, h2, ms[i], args[i].spine, lo, p);
                        lemma_shaped_present(h1, ms[i], args[i].spine, lo, p);
                        lemma_binds_on_kept(h1, h2, lo, ms[i], p);
                    }
                }
                assert forall|key: (u64, Index)| #[trigger] used.contains(key) <==> known(es, key)
                    && exists|i: int| #[trigger]
                    any(i) && 0 <= i < k && uses(h2, all[i], args[i].spine, key) by {
                    if before.contains(key) {
                        let i = choose|i: int| #[trigger]
                            any(i) && 0 <= i < l && uses(h1, ms[i], args[i].spine, key);
                        assert(any(i) && uses(h2, all[i], args[i].spine, key));
                    }
                    if more.contains(key) {
                        assert(any(l as int) && uses(h2, all[l as int], args[l as int].spine, key));
                    }
                    if known(es, key) && exists|i: int| #[trigger]
                        any(i) && 0 <= i < k && uses(h2, all[i], args[i].spine, key) {
                        let i = choose|i: int| #[trigger]
                            any(i) && 0 <= i < k && uses(h2, all[i], args[i].spine, key);
                        if i < l {
                            assert(any(i) && uses(h1, ms[i], args[i].spine, key));
                            assert(before.contains(key));
                        } else {
                            assert(more.contains(key));
                        }
                    }
                }
            }
        }
    }
}

/// Extending a context adds binds on the side that is asked for, under new identifiers.
proof fn lemma_extension_uses(s: Progressed, t: IRTerm, es: Seq<NodeView>, p: Polarity)
    requires
        context_plain(s.heap, es),
        dated(es, s.next),
        s.heap.binds.len() + t.params@.len() + t.lets@.len() <= usize::MAX,
        extension(s, t.params@, t.lets@, es, p) is Ok,
    ensures
        ({
            let s1 = extension(s, t.params@, t.lets@, es, p)->Ok_0;
            let ces = extended_es(s, t.params@, t.lets@, es);
            let b = new_bindings(s.heap, t.params@, t.lets@);
            &&& s.next <= s1.next
            &&& extends(s.heap, s1.heap, 0)
            &&& dated(ces, s1.next)
            &&& binds_present(s1.heap, b.params)
            &&& binds_present(s1.heap, b.lets)
            &&& forall|i: int|
                0 <= i < b.params.len() ==> s1.heap.binds[#[trigger] b.params[i] as int].polarity
                    == p
            &&& forall|i: int|
                0 <= i < b.lets.len() ==> s1.heap.binds[#[trigger] b.lets[i] as int].polarity == p
            &&& forall|k: (u64, Index)|
                k.0 != s.next && k.0 != s.next + STRIDE ==> (#[trigger] known(ces, k) <==> known(
                    es,
                    k,
                ))
            &&& forall|k: (u64, Index)| #[trigger]
                known(es, k) ==> k.0 != s.next && k.0 != s.next + STRIDE
        }),
{
    lemma_extended(s, t, es, p);
    let s1 = extension(s, t.params@, t.lets@, es, p)->Ok_0;
    let ces = extended_es(s, t.params@, t.lets@, es);
    let b = new_bindings(s.heap, t.params@, t.lets@);
    let n = s.heap.binds.len();
    assert forall|i: int| 0 <= i < b.params.len() implies (#[trigger] b.params[i]) == n + i
        && s1.heap.binds[n + i].polarity == p by {}
    assert forall|i: int| 0 <= i < b.lets.len() implies (#[trigger] b.lets[i]) == n
        + t.params@.len() + i && s1.heap.binds[n + t.params@.len() + i].polarity == p by {}
    assert forall|d: int| 0 <= d < ces.len() implies (#[trigger] ces[d]).entry.params_id < s1.next
        && ces[d].entry.lets_id < s1.next by {
        if b.none() {
            assert(ces[d] == es[d]);
        } else if d > 0 {
            assert(ces[d] == es[d - 1]);
        }
    }
    assert forall|k: (u64, Index)| k.0 != s.next && k.0 != s.next + STRIDE implies (
    #[trigger] known(ces, k) <==> known(es, k)) by {
        if known(ces, k) {
            let d = choose|d: int|
                0 <= d < ces.len() && ((#[trigger] ces[d]).entry.params_id == k.0
                    || ces[d].entry.lets_id == k.0);
            if !b.none() && d > 0 {
                assert(es[d - 1] == ces[d]);
            } else if b.none() {
                assert(es[d] == ces[d]);
            }
        }
        if known(es, k) {
            let d = choose|d: int|
                0 <= d < es.len() && ((#[trigger] es[d]).entry.params_id == k.0
                    || es[d].entry.lets_id == k.0);
            if b.none() {
                assert(ces[d] == es[d]);
            } else {
                assert(ces[d + 1] == es[d]);
            }
        }
    }
}

proof fn lemma_term_uses(s: Progressed, t: IRTerm, es: Seq<NodeView>, polarity: Polarity)
    requires
        context_plain(s.heap, es),
        dated(es, s.next),
        es.len() + term_binders(t) <= u32::MAX,
        s.heap.binds.len() + term_binders(t) <= usize::MAX,
    ensures
        term(s, t, es, polarity) matches Ok((s2, m, used)) ==> (s2.heap.metas.len() <= usize::MAX
            ==> spine_done(s, s2, m, t.spine, es, polarity, used) && binds_on(
            s2.heap,
            m,
            polarity.flipped(),
        )),
    decreases t, 0nat,
{
    if let Ok((s2, m, used)) = term(s, t, es, polarity) {
        if s2.heap.metas.len() <= usize::MAX {
            let p = polarity.flipped();
            lemma_extended(s, t, es, p);
            lemma_extension_uses(s, t, es, p);
            let s1 = extension(s, t.params@, t.lets@, es, p)->Ok_0;
            let ces = extended_es(s, t.params@, t.lets@, es);
            let b = new_bindings(s.heap, t.params@, t.lets@);
            lemma_body_uses(s1, t.spine, ces, b, polarity);
            lemma_body_holds(s1, t.spine, ces, b, polarity);
            lemma_extends_trans(s.heap, s1.heap, s2.heap, 0);
            lemma_sides_kept(s1.heap, s2.heap, b.params, p);
            lemma_sides_kept(s1.heap, s2.heap, b.lets, p);
        }
    }
}

proof fn lemma_sides_kept(h: Heap, g: Heap, bs: Seq<usize>, p: Polarity)
    requires
        extends(h, g, 0),
        binds_present(h, bs),
        forall|i: int| 0 <= i < bs.len() ==> h.binds[#[trigger] bs[i] as int].polarity == p,
    ensures
        binds_present(g, bs),
        forall|i: int| 0 <= i < bs.len() ==> g.binds[#[trigger] bs[i] as int].polarity == p,
{
    assert forall|i: int| 0 <= i < bs.len() implies (#[trigger] bs[i]) < g.binds.len()
        && g.binds[bs[i] as int].polarity == p by {
        assert(g.binds[bs[i] as int] == h.binds[bs[i] as int]);
    }
}

proof fn lemma_marked_kept(h: Heap, g: Heap, tb: TbView, t: IRType, p: Polarity)
    requires
        extends(h, g, 0),
        marked(h, tb, t, p),
    ensures
        marked(g, tb, t, p),
        forall|k: (u64, Index)| #[trigger] type_uses(g, tb, t, k) == type_uses(h, tb, t, k),
    decreases t, 0nat,
{
    let m = tb.codomain;
    lemma_shaped_kept(h, g, m, t.codomain.spine, 0, p.flipped());
    lemma_shaped_present(h, m, t.codomain.spine, 0, p.flipped());
    lemma_binds_on_kept(h, g, 0, m, p.flipped());
    lemma_parts_marked_kept(h, g, tb.params, t.params@, p.flipped());
    lemma_parts_marked_kept(h, g, tb.lets, t.lets@, p.flipped());
    assert(g.metas[m as int] == h.metas[m as int]);
    assert forall|k: (u64, Index)| #[trigger] type_uses(g, tb, t, k) == type_uses(h, tb, t, k) by {
        assert(uses(g, m, t.codomain.spine, k) == uses(h, m, t.codomain.spine, k));
        assert(parts_use(g, tb.params, t.params@, k) == parts_use(h, tb.params, t.params@, k));
        assert(parts_use(g, tb.lets, t.lets@, k) == parts_use(h, tb.lets, t.lets@, k));
    }
}

proof fn lemma_parts_marked_kept(
    h: Heap,
    g: Heap,
    tbs: Seq<Option<TbView>>,
    ts: Seq<Option<IRType>>,
    p: Polarity,
)
    requires
        extends(h, g, 0),
        parts_marked(h, tbs, ts, p),
    ensures
        parts_marked(g, tbs, ts, p),
        forall|k: (u64, Index)| #[trigger] parts_use(g, tbs, ts, k) == parts_use(h, tbs, ts, k),
    decreases ts, 0nat,
{
    assert forall|i: int| 0 <= i < ts.len() implies match (tbs[i], #[trigger] ts[i]) {
        (Some(tb), Some(t)) => marked(g, tb, t, p) && forall|k: (u64, Index)| #[trigger]
            type_uses(g, tb, t, k) == type_uses(h, tb, t, k),
        (None, None) => true,
        _ => false,
    } by {
        if let (Some(tb), Some(t)) = (tbs[i], ts[i]) {
            lemma_marked_kept(h, g, tb, t, p);
        }
    }
    assert forall|k: (u64, Index)| #[trigger] parts_use(g, tbs, ts, k) == parts_use(
        h,
        tbs,
        ts,
        k,
    ) by {
        if parts_use(g, tbs, ts, k) {
            let i = choose|i: int| #[trigger]
                any(i) && 0 <= i < ts.len() && match (tbs[i], ts[i]) {
                    (Some(tb), Some(t)) => type_uses(g, tb, t, k),
                    _ => false,
                };
            let (tb, t) = (tbs[i]->0, ts[i]->0);
            assert(type_uses(g, tb, t, k) == type_uses(h, tb, t, k));
            assert(any(i));
        }
        if parts_use(h, tbs, ts, k) {
            let i = choose|i: int| #[trigger]
                any(i) && 0 <= i < ts.len() && match (tbs[i], ts[i]) {
                    (Some(tb), Some(t)) => type_uses(h, tb, t, k),
                    _ => false,
                };
            let (tb, t) = (tbs[i]->0, ts[i]->0);
            assert(type_uses(g, tb, t, k) == type_uses(h, tb, t, k));
            assert(any(i));
        }
    }
}

/// What elaborating types leaves behind.
spec fn parts_done(
    s: Progressed,
    s2: Progressed,
    tbs: Seq<Option<TbView>>,
    ts: Seq<Option<IRType>>,
    es: Seq<NodeView>,
    p: Polarity,
    used: Set<(u64, Index)>,
) -> bool {
    &&& s.next <= s2.next
    &&& extends(s.heap, s2.heap, 0)
    &&& tbs.len() == ts.len()
    &&& parts_marked(s2.heap, tbs, ts, p)
    &&& forall|k: (u64, Index)| #[trigger]
        used.contains(k) <==> known(es, k) && parts_use(s2.heap, tbs, ts, k)
}

proof fn lemma_parts_uses(
    s: Progressed,
    ts: Seq<Option<IRType>>,
    es: Seq<NodeView>,
    polarity: Polarity,
    k: nat,
)
    requires
        k <= ts.len(),
        context_plain(s.heap, es),
        dated(es, s.next),
        es.len() + parts_binders(ts, k) <= u32::MAX,
        s.heap.binds.len() + parts_binders(ts, k) <= usize::MAX,
    ensures
        typ_parts(s, ts, es, polarity, k) matches Ok((s2, tbs, used)) ==> (s2.heap.metas.len()
            <= usize::MAX ==> parts_done(s, s2, tbs, ts.take(k as int), es, polarity, used)),
    decreases ts, k,
{
    if k == 0 {
    } else {
        let l = (k - 1) as nat;
        lemma_parts_uses(s, ts, es, polarity, l);
        lemma_parts_hold(s, ts, es, polarity, l);
        if let Ok((s2, all, used)) = typ_parts(s, ts, es, polarity, k) {
            if s2.heap.metas.len() <= usize::MAX {
                let (s1, made, before) = typ_parts(s, ts, es, polarity, l)->Ok_0;
                let (short, long) = (ts.take(l as int), ts.take(k as int));
                let (h1, h2) = (s1.heap, s2.heap);
                if let Some(t) = ts[l as int] {
                    lemma_type_grows(s1, t, es, polarity);
                    lemma_scope_kept(s.heap, h1, 0, es);
                    assert(dated(es, s1.next));
                    lemma_type_uses(s1, t, es, polarity);
                    let (_, tb, more) = typ(s1, t, es, polarity)->Ok_0;
                    lemma_extends_trans(s.heap, h1, h2, 0);
                    assert(all == made.push(Some(tb)));
                } else {
                    assert(s2 == s1);
                    assert(all == made.push(None::<TbView>));
                }
                assert(extends(h1, h2, 0));
                lemma_parts_marked_kept(h1, h2, made, short, polarity);
                assert forall|i: int| 0 <= i < long.len() implies match (
                    all[i],
                    #[trigger] long[i],
                ) {
                    (Some(tb), Some(t)) => marked(h2, tb, t, polarity),
                    (None, None) => true,
                    _ => false,
                } by {
                    if i < l {
                        assert(all[i] == made[i] && long[i] == short[i]);
                    }
                }
                assert forall|key: (u64, Index)| #[trigger] used.contains(key) <==> known(es, key)
                    && parts_use(h2, all, long, key) by {
                    if before.contains(key) {
                        assert(parts_use(h2, made, short, key));
                        let i = choose|i: int| #[trigger]
                            any(i) && 0 <= i < short.len() && match (made[i], short[i]) {
                                (Some(tb), Some(t)) => type_uses(h2, tb, t, key),
                                _ => false,
                            };
                        assert(any(i) && all[i] == made[i] && long[i] == short[i]);
                    }
                    if let Some(t) = ts[l as int] {
                        let (_, tb, more) = typ(s1, t, es, polarity)->Ok_0;
                        if more.contains(key) {
                            assert(any(l as int) && type_uses(h2, tb, t, key));
                        }
                    }
                    if known(es, key) && parts_use(h2, all, long, key) {
                        let i = choose|i: int| #[trigger]
                            any(i) && 0 <= i < long.len() && match (all[i], long[i]) {
                                (Some(tb), Some(t)) => type_uses(h2, tb, t, key),
                                _ => false,
                            };
                        if i < l {
                            assert(any(i) && all[i] == made[i] && long[i] == short[i]);
                            assert(parts_use(h2, made, short, key));
                            assert(before.contains(key));
                        }
                    }
                }
            }
        }
    }
}

proof fn lemma_type_uses(s: Progressed, t: IRType, es: Seq<NodeView>, polarity: Polarity)
    requires
        context_plain(s.heap, es),
        dated(es, s.next),
        es.len() + type_binders(t) <= u32::MAX,
        s.heap.binds.len() + type_binders(t) <= usize::MAX,
    ensures
        typ(s, t, es, polarity) matches Ok((s2, tb, used)) ==> (s2.heap.metas.len() <= usize::MAX
            ==> {
            &&& s.next <= s2.next
            &&& extends(s.heap, s2.heap, 0)
            &&& marked(s2.heap, tb, t, polarity)
            &&& forall|k: (u64, Index)| #[trigger]
                used.contains(k) <==> known(es, k) && type_uses(s2.heap, tb, t, k)
        }),
    decreases t, 0nat,
{
    if let Ok((s5, tb, used)) = typ(s, t, es, polarity) {
        if s5.heap.metas.len() <= usize::MAX {
            let c = t.codomain;
            let p = polarity.flipped();
            let s1 = extension(s, c.params@, c.lets@, es, p)->Ok_0;
            lemma_extended(s, c, es, p);
            lemma_extension_uses(s, c, es, p);
            let ces = extended_es(s, c.params@, c.lets@, es);
            let b = new_bindings(s.heap, c.params@, c.lets@);
            let (s2, m, own) = body(s1, c.spine, ces, b, polarity)->Ok_0;
            lemma_body_holds(s1, c.spine, ces, b, polarity);
            lemma_parts_grow(s2, t.params@, ces, p, t.params@.len());
            let (s3, params, ps) = typ_parts(s2, t.params@, ces, p, t.params@.len())->Ok_0;
            lemma_parts_grow(s3, t.lets@, ces, p, t.lets@.len());
            let (s4, lets, ls) = typ_parts(s3, t.lets@, ces, p, t.lets@.len())->Ok_0;
            lemma_body_uses(s1, c.spine, ces, b, polarity);
            lemma_scope_kept(s1.heap, s2.heap, 0, ces);
            assert(dated(ces, s2.next));
            lemma_parts_hold(s2, t.params@, ces, p, t.params@.len());
            lemma_parts_uses(s2, t.params@, ces, p, t.params@.len());
            lemma_scope_kept(s2.heap, s3.heap, 0, ces);
            assert(dated(ces, s3.next));
            lemma_parts_uses(s3, t.lets@, ces, p, t.lets@.len());
            assert(t.params@.take(t.params@.len() as int) =~= t.params@);
            assert(t.lets@.take(t.lets@.len() as int) =~= t.lets@);
            let h = s4.heap;
            lemma_extends_trans(s2.heap, s3.heap, h, 0);
            lemma_extends_trans(s1.heap, s2.heap, h, 0);
            lemma_extends_trans(s.heap, s1.heap, h, 0);
            lemma_shaped_above(s2.heap, m, c.spine, s1.heap.metas.len() as int, 0, p);
            lemma_shaped_kept(s2.heap, h, m, c.spine, 0, p);
            assert(h.metas[m as int] == s2.heap.metas[m as int]);
            lemma_sides_kept(s1.heap, h, b.params, p);
            lemma_sides_kept(s1.heap, h, b.lets, p);
            lemma_parts_marked_kept(s3.heap, h, params, t.params@, p);
            let rest = ps.union(ls);
            lemma_rows_len(ces, own);
            lemma_rows_len(ces, rest);
            assert forall|d: int, i: usize| 0 <= d < ces.len() implies (
            #[trigger] tb.codomain_mvars[d].contains(i) <==> i < ces[d].bindings.params.len()
                && uses(h, m, c.spine, (ces[d].entry.params_id, Index::Param(i)))) by {
                lemma_rows(ces, own, d, i);
                assert(known(ces, (ces[d].entry.params_id, Index::Param(i))));
            }
            assert forall|d: int, i: usize| 0 <= d < ces.len() implies (
            #[trigger] tb.types_mvars[d].contains(i) <==> i < ces[d].bindings.params.len() && (
            parts_use(h, params, t.params@, (ces[d].entry.params_id, Index::Param(i)))
                || parts_use(h, lets, t.lets@, (ces[d].entry.params_id, Index::Param(i))))) by {
                lemma_rows(ces, rest, d, i);
                let k = (ces[d].entry.params_id, Index::Param(i));
                assert(known(ces, k));
                assert(rest.contains(k) == (ps.contains(k) || ls.contains(k)));
            }
            assert(marked(h, tb, t, polarity));
            assert(used == escaping(own.union(rest), s.next, (s.next + STRIDE) as u64));
            assert forall|k: (u64, Index)| #[trigger] used.contains(k) <==> known(es, k)
                && type_uses(h, tb, t, k) by {
                assert(own.union(rest).contains(k) == (own.contains(k) || ps.contains(k)
                    || ls.contains(k)));
                assert(own.contains(k) <==> known(ces, k) && uses(h, m, c.spine, k)) by {
                    assert(uses(s2.heap, m, c.spine, k) == uses(h, m, c.spine, k));
                }
                assert(ps.contains(k) <==> known(ces, k) && parts_use(h, params, t.params@, k)) by {
                    assert(parts_use(s3.heap, params, t.params@, k) == parts_use(
                        h,
                        params,
                        t.params@,
                        k,
                    ));
                }
                assert(ls.contains(k) <==> known(ces, k) && parts_use(h, lets, t.lets@, k));
                assert(type_uses(h, tb, t, k) == (uses(h, m, c.spine, k) || parts_use(
                    h,
                    params,
                    t.params@,
                    k,
                ) || parts_use(h, lets, t.lets@, k)));
            }
        }
    }
}

/// A type that was elaborated tells which goals it depends on: at each level of its context it
/// lists exactly the parameters that its codomain uses, and exactly those that the types of its
/// parameters and of its let declarations use, and so do those types. What it binds stands on the
/// side opposite to its own. Those of the variables of the context that are told to be used are
/// exactly those that it uses somewhere.
pub proof fn law_type_dependencies(s: Progressed, t: IRType, es: Seq<NodeView>, polarity: Polarity)
    requires
        context_plain(s.heap, es),
        dated(es, s.next),
        es.len() + type_binders(t) <= u32::MAX,
        s.heap.binds.len() + type_binders(t) <= usize::MAX,
    ensures
        typ(s, t, es, polarity) matches Ok((s2, tb, used)) ==> (s2.heap.metas.len() <= usize::MAX
            ==> marked(s2.heap, tb, t, polarity) && forall|k: (u64, Index)| #[trigger]
            used.contains(k) <==> known(es, k) && type_uses(s2.heap, tb, t, k)),
{
    lemma_type_uses(s, t, es, polarity);
}

} // verus!
