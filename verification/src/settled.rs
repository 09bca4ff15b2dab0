//! Constraints that were imposed on the way to a solution hold in it.
use crate::backtrack::{in_order, law_solution_complete, lists_all_leaves, ProverView};
use crate::constraint::{
    ancestor, reduce_args, reduce_constraint, reduce_equation, walk, Progress, Walk, LINK_LIMIT,
};
use crate::data::{
    ConstraintView, EquationView, Head, Instruction, MetaId, NodeView, SubstView, TermView,
    WhnfView,
};
use crate::es::{appended, links, subst_entry, var_at, vars_entry};
use crate::ids::{Fault, STRIDE};
use crate::independence::{args_leaves, leaves};
use crate::memory::Heap;
use crate::meta::{obligations, occurs, reduce_all};
use crate::normal::{law_whnf_deeper, law_whnf_normal, open_meta};
use crate::propagation::{
    law_all_progress, law_equation_progresses, law_walk_stuck, lemma_args_progress, progresses,
};
use crate::term::{args_of, argument, replaces, substituted, whnf, Effects};
use vstd::prelude::*;

verus! {

/// Whether `r` takes the identifier `x` to `y`.
pub open spec fn maps(r: Map<u64, u64>, x: u64, y: u64) -> bool {
    r.contains_key(x) && r[x] == y
}

/// Whether `b` is `a` with its identifiers renamed by `r`.
pub open spec fn renamed(r: Map<u64, u64>, a: Seq<NodeView>, b: Seq<NodeView>) -> bool
    decreases a,
{
    &&& a.len() == b.len()
    &&& forall|i: int|
        #![trigger a[i]]
        #![trigger b[i]]
        0 <= i < a.len() ==> a[i].bindings == b[i].bindings && maps(
            r,
            a[i].entry.params_id,
            b[i].entry.params_id,
        ) && maps(r, a[i].entry.lets_id, b[i].entry.lets_id) && match (
            a[i].entry.subst,
            b[i].entry.subst,
        ) {
            (None, None) => true,
            (Some(s), Some(t)) => s.args == t.args && renamed(r, s.es, t.es),
            _ => false,
        }
}

/// Whether `b` is the node `a` with its identifiers renamed by `r`.
pub open spec fn renamed_nodes(r: Map<u64, u64>, a: NodeView, b: NodeView) -> bool {
    &&& a.bindings == b.bindings
    &&& maps(r, a.entry.params_id, b.entry.params_id)
    &&& maps(r, a.entry.lets_id, b.entry.lets_id)
    &&& match (a.entry.subst, b.entry.subst) {
        (None, None) => true,
        (Some(s), Some(t)) => s.args == t.args && renamed(r, s.es, t.es),
        _ => false,
    }
}

/// Whether `t` is the term `s` with its identifiers renamed by `r`.
pub open spec fn renamed_terms(r: Map<u64, u64>, s: TermView, t: TermView) -> bool {
    s.base == t.base && renamed(r, s.es, t.es)
}

/// Whether the sides of `b` are those of `a` with their identifiers renamed by `r`.
pub open spec fn renamed_sides(r: Map<u64, u64>, a: EquationView, b: EquationView) -> bool {
    renamed_terms(r, a.premise, b.premise) && renamed_terms(r, a.goal, b.goal)
}

/// Whether `r` is about identifiers below `next` only.
pub open spec fn under(r: Map<u64, u64>, next: u64) -> bool {
    forall|k: u64| #[trigger] r.contains_key(k) ==> k < next
}

/// Whether `more` renames what `r` does in the same way.
pub open spec fn includes(more: Map<u64, u64>, r: Map<u64, u64>) -> bool {
    forall|k: u64| #[trigger] r.contains_key(k) ==> more.contains_key(k) && more[k] == r[k]
}

/// Whether all identifiers in `es` are below `next`.
pub open spec fn drawn(es: Seq<NodeView>, next: u64) -> bool
    decreases es,
{
    forall|i: int|
        #![trigger es[i]]
        0 <= i < es.len() ==> {
            &&& es[i].entry.params_id < next
            &&& es[i].entry.lets_id < next
            &&& es[i].entry.subst matches Some(s) ==> drawn(s.es, next)
            &&& es[i].entry.context matches Some(t) ==> drawn(t.es, next)
        }
}

/// Whether all identifiers in the node are below `next`.
pub open spec fn drawn_node(n: NodeView, next: u64) -> bool {
    &&& n.entry.params_id < next
    &&& n.entry.lets_id < next
    &&& n.entry.subst matches Some(s) ==> drawn(s.es, next)
    &&& n.entry.context matches Some(t) ==> drawn(t.es, next)
}

pub proof fn lemma_drawn_by(es: Seq<NodeView>, next: u64)
    requires
        forall|i: int| 0 <= i < es.len() ==> drawn_node(#[trigger] es[i], next),
    ensures
        drawn(es, next),
{
    assert forall|i: int|
        #![trigger es[i]]
        0 <= i < es.len() implies {
        &&& es[i].entry.params_id < next
        &&& es[i].entry.lets_id < next
        &&& es[i].entry.subst matches Some(s) ==> drawn(s.es, next)
        &&& es[i].entry.context matches Some(t) ==> drawn(t.es, next)
    } by {
        assert(drawn_node(es[i], next));
    }
}

/// Whether all identifiers in `c` are below `next`, and the length of the redex is a number.
pub open spec fn drawn_constraint(c: ConstraintView, next: u64) -> bool {
    match c {
        ConstraintView::Equation(q) => drawn(q.premise.es, next) && drawn(q.goal.es, next),
        ConstraintView::Redex(r) => r.instructions.len() <= usize::MAX,
    }
}

/// `r` for the identifiers below `next`.
spec fn restricted(r: Map<u64, u64>, next: u64) -> Map<u64, u64> {
    Map::new(|k: u64| r.contains_key(k) && k < next, |k: u64| r[k])
}

proof fn lemma_renamed_at(r: Map<u64, u64>, a: Seq<NodeView>, b: Seq<NodeView>, i: int)
    requires
        renamed(r, a, b),
        0 <= i < a.len(),
    ensures
        renamed_nodes(r, a[i], b[i]),
{
}

proof fn lemma_renamed_by(r: Map<u64, u64>, a: Seq<NodeView>, b: Seq<NodeView>)
    requires
        a.len() == b.len(),
        forall|i: int| 0 <= i < a.len() ==> renamed_nodes(r, #[trigger] a[i], b[i]),
    ensures
        renamed(r, a, b),
{
    assert forall|i: int|
        #![trigger a[i]]
        #![trigger b[i]]
        0 <= i < a.len() implies a[i].bindings == b[i].bindings && maps(
        r,
        a[i].entry.params_id,
        b[i].entry.params_id,
    ) && maps(r, a[i].entry.lets_id, b[i].entry.lets_id) && match (
        a[i].entry.subst,
        b[i].entry.subst,
    ) {
        (None, None) => true,
        (Some(s), Some(t)) => s.args == t.args && renamed(r, s.es, t.es),
        _ => false,
    } by {
        assert(renamed_nodes(r, a[i], b[i]));
    }
}

proof fn lemma_renamed_more(
    r: Map<u64, u64>,
    more: Map<u64, u64>,
    a: Seq<NodeView>,
    b: Seq<NodeView>,
)
    requires
        renamed(r, a, b),
        includes(more, r),
    ensures
        renamed(more, a, b),
    decreases a,
{
    assert forall|i: int| 0 <= i < a.len() implies renamed_nodes(more, #[trigger] a[i], b[i]) by {
        lemma_renamed_at(r, a, b, i);
        if let (Some(s), Some(t)) = (a[i].entry.subst, b[i].entry.subst) {
            lemma_renamed_more(r, more, s.es, t.es);
        }
    }
    lemma_renamed_by(more, a, b);
}

proof fn lemma_renamed_appended(
    r: Map<u64, u64>,
    a: Seq<NodeView>,
    b: Seq<NodeView>,
    m: NodeView,
    n: NodeView,
)
    requires
        renamed(r, a, b),
        renamed_nodes(r, m, n),
    ensures
        renamed(r, appended(a, m), appended(b, n)),
{
    if !m.bindings.none() {
        let (x, y) = (seq![m] + a, seq![n] + b);
        assert forall|i: int| 0 <= i < x.len() implies renamed_nodes(r, #[trigger] x[i], y[i]) by {
            if i > 0 {
                lemma_renamed_at(r, a, b, i - 1);
            }
        }
        lemma_renamed_by(r, x, y);
    }
}

proof fn lemma_restricted(r: Map<u64, u64>, next: u64, a: Seq<NodeView>, b: Seq<NodeView>)
    requires
        renamed(r, a, b),
        drawn(a, next),
    ensures
        renamed(restricted(r, next), a, b),
    decreases a,
{
    let less = restricted(r, next);
    assert forall|i: int| 0 <= i < a.len() implies renamed_nodes(less, #[trigger] a[i], b[i]) by {
        lemma_renamed_at(r, a, b, i);
        if let (Some(s), Some(t)) = (a[i].entry.subst, b[i].entry.subst) {
            lemma_restricted(r, next, s.es, t.es);
        }
    }
    lemma_renamed_by(less, a, b);
}

/// The renaming that changes nothing.
spec fn unchanged() -> Map<u64, u64> {
    Map::new(|k: u64| true, |k: u64| k)
}

proof fn lemma_unchanged(a: Seq<NodeView>)
    ensures
        renamed(unchanged(), a, a),
    decreases a,
{
    assert forall|i: int| 0 <= i < a.len() implies renamed_nodes(
        unchanged(),
        #[trigger] a[i],
        a[i],
    ) by {
        if let Some(s) = a[i].entry.subst {
            lemma_unchanged(s.es);
        }
    }
    lemma_renamed_by(unchanged(), a, a);
}

/// Whether everything that is assigned in `h` is assigned in the same way in `g`.
pub open spec fn grows(h: Heap, g: Heap) -> bool {
    &&& h.metas.len() <= g.metas.len()
    &&& h.binds == g.binds
    &&& forall|x: int|
        #![trigger g.metas[x]]
        0 <= x < h.metas.len() ==> g.metas[x].bindings == h.metas[x].bindings && g.metas[x].parent
            == h.metas[x].parent && (h.metas[x].assignment matches Some(a) ==> (
        g.metas[x].assignment matches Some(b) && b.head == a.head && b.args == a.args && b.bind
            == a.bind))
}

/// Whether the reductions come to the same form, or to the same fault.
pub open spec fn same_end(
    a: Result<(WhnfView, Effects), Fault>,
    b: Result<(WhnfView, Effects), Fault>,
) -> bool {
    match (a, b) {
        (Ok((x, _)), Ok((y, _))) => x == y,
        (Err(f), Err(g)) => f == g,
        _ => false,
    }
}

/// Whether the reduction was broken off, for want of depth or of identifiers.
pub open spec fn broken_off(a: Result<(WhnfView, Effects), Fault>) -> bool {
    a matches Err(f) && f != Fault::Malformed
}

/// Whether reducing `t` in `g` leads over `u`, which is the term of `w` with its identifiers
/// renamed by `more`. Where the head of `w` is a variable, it leads no further.
pub open spec fn leads_over(
    g: Heap,
    r: Map<u64, u64>,
    more: Map<u64, u64>,
    w: WhnfView,
    next: u64,
    t: TermView,
    u: TermView,
    fuel: nat,
    e: Effects,
    f: Effects,
) -> bool {
    &&& includes(more, r)
    &&& under(more, next)
    &&& renamed_terms(more, w.term, u)
    &&& same_end(whnf(g, t, true, false, fuel, e), whnf(g, u, true, false, fuel, f))
    &&& w.head matches Head::Var(v) ==> {
        &&& whnf(g, t, true, false, fuel, e) matches Ok((x, _))
        &&& x.term == u
        &&& x.head matches Head::Var(y)
        &&& v.index == y.index
        &&& maps(more, v.entry_id, y.entry_id)
    }
}

/// Whether reducing `t` in `g` leads over what `s` reduces to in `h`, where `t` is `s` with its
/// identifiers renamed by `r`, unless it is broken off.
pub open spec fn followed(
    h: Heap,
    g: Heap,
    r: Map<u64, u64>,
    s: TermView,
    t: TermView,
    fuel: nat,
    e: Effects,
    fuel2: nat,
    f: Effects,
) -> bool {
    under(r, e.next) && renamed_terms(r, s, t) ==> (whnf(h, s, true, false, fuel, e) matches Ok(
        (w, e2),
    ) ==> broken_off(whnf(g, t, true, false, fuel2, f)) || exists|
        more: Map<u64, u64>,
        u: TermView,
        f2: Effects,
    | #[trigger]
        leads_over(g, r, more, w, e2.next, t, u, fuel2, f, f2))
}

/// Whether every reduction in `g` leads over what the term reduces to in `h`: what is found at the
/// head of a term is not lost by further assignments.
pub open spec fn keeps_forms(h: Heap, g: Heap) -> bool {
    forall|
        r: Map<u64, u64>,
        s: TermView,
        t: TermView,
        fuel: nat,
        e: Effects,
        fuel2: nat,
        f: Effects,
    | #[trigger]
        followed(h, g, r, s, t, fuel, e, fuel2, f)
}

/// Whether no variable has rules.
pub open spec fn without_rules(h: Heap) -> bool {
    forall|b: int| 0 <= b < h.binds.len() ==> (#[trigger] h.binds[b]).rules.len() == 0
}

/// `r` with two more identifiers, which were drawn one after the other.
spec fn with_two(r: Map<u64, u64>, x: u64, y: u64) -> Map<u64, u64> {
    r.insert(x, y).insert((x + STRIDE) as u64, (y + STRIDE) as u64)
}

proof fn lemma_with_two(r: Map<u64, u64>, x: u64, y: u64)
    requires
        under(r, x),
        x + 2 * STRIDE <= u64::MAX,
    ensures
        includes(with_two(r, x, y), r),
        under(with_two(r, x, y), (x + 2 * STRIDE) as u64),
        maps(with_two(r, x, y), x, y),
        maps(with_two(r, x, y), (x + STRIDE) as u64, (y + STRIDE) as u64),
{
}

proof fn lemma_followed(
    h: Heap,
    g: Heap,
    r: Map<u64, u64>,
    s: TermView,
    t: TermView,
    fuel: nat,
    e: Effects,
    fuel2: nat,
    f: Effects,
)
    requires
        grows(h, g),
        without_rules(h),
    ensures
        followed(h, g, r, s, t, fuel, e, fuel2, f),
    decreases fuel,
{
    if under(r, e.next) && renamed_terms(r, s, t) && whnf(h, s, true, false, fuel, e) is Ok {
        let (w, e2) = whnf(h, s, true, false, fuel, e)->Ok_0;
        let end = whnf(g, t, true, false, fuel2, f);
        assert(g.metas[s.base as int].bindings == h.metas[s.base as int].bindings);
        if h.metas[s.base as int].assignment is None {
            assert(same_end(end, end));
            assert(leads_over(g, r, r, w, e2.next, t, t, fuel2, f, f));
        } else if fuel2 > 0 {
            let a = h.metas[s.base as int].assignment->0;
            let d = a.head.0.0 as int;
            lemma_renamed_at(r, s.es, t.es, d);
            let (m, n) = (s.es[d], t.es[d]);
            match (replaces(m, a.head.1), replaces(n, a.head.1)) {
                (Some((x, i)), Some((y, _))) => {
                    if f.can_draw(2) {
                        let bindings = h.metas[x.args[i] as int].bindings;
                        assert(g.metas[x.args[i] as int].bindings == bindings);
                        let (p, q) = (
                            subst_entry(SubstView { args: a.args, es: s.es }, e.next),
                            subst_entry(SubstView { args: a.args, es: t.es }, f.next),
                        );
                        let r1 = with_two(r, e.next, f.next);
                        lemma_with_two(r, e.next, f.next);
                        lemma_renamed_more(r, r1, s.es, t.es);
                        lemma_renamed_more(r, r1, x.es, y.es);
                        lemma_renamed_appended(
                            r1,
                            x.es,
                            y.es,
                            NodeView { entry: p, bindings },
                            NodeView { entry: q, bindings },
                        );
                        let (s1, t1) = (substituted(h, x, i, p), substituted(g, y, i, q));
                        let (e1, f1) = (e.plus(2, links(bindings)), f.plus(2, links(bindings)));
                        let (less, less2) = ((fuel - 1) as nat, (fuel2 - 1) as nat);
                        lemma_followed(h, g, r1, s1, t1, less, e1, less2, f1);
                        assert(end == whnf(g, t1, true, false, less2, f1));
                        if !broken_off(end) {
                            let (more, u, f2) = choose|
                                more: Map<u64, u64>,
                                u: TermView,
                                f2: Effects,
                            | #[trigger]
                                leads_over(g, r1, more, w, e2.next, t1, u, less2, f1, f2);
                            law_whnf_deeper(g, u, true, false, less2, fuel2, f2);
                            assert(leads_over(g, r, more, w, e2.next, t, u, fuel2, f, f2));
                        }
                    }
                },
                _ => {
                    let var = var_at(n, a.head.1);
                    assert(end == Ok::<(WhnfView, Effects), Fault>(
                        (WhnfView { term: t, head: Head::Var(var) }, f),
                    ));
                    assert(leads_over(g, r, r, w, e2.next, t, t, fuel2, f, f));
                },
            }
        }
    }
}

/// Where no variable has rules, further assignments lose nothing that reductions have found.
pub proof fn law_forms_kept(h: Heap, g: Heap)
    requires
        grows(h, g),
        without_rules(h),
    ensures
        keeps_forms(h, g),
{
    assert forall|
        r: Map<u64, u64>,
        s: TermView,
        t: TermView,
        fuel: nat,
        e: Effects,
        fuel2: nat,
        f: Effects,
    | #[trigger]
        followed(h, g, r, s, t, fuel, e, fuel2, f) by {
        lemma_followed(h, g, r, s, t, fuel, e, fuel2, f);
    }
}

/// Whether propagation comes to an end only by finding that the constraint holds, with nothing left
/// stuck, unless too many links have been made.
pub open spec fn satisfied(a: Result<(bool, Progress), Fault>, p: Progress) -> bool {
    match a {
        Err(f) => f != Fault::Malformed,
        Ok((holds, p2)) => p2.effects.links > LINK_LIMIT || (holds && p2.constraints
            == p.constraints && p2.changes == p.changes),
    }
}

/// Whether the sides of `q` have the same variable at their heads, and equal arguments.
pub open spec fn equal_sides(
    g: Heap,
    q: EquationView,
    fuel: nat,
    e: Effects,
    f: Effects,
    id: u64,
    p: Progress,
) -> bool {
    match whnf(g, q.premise, true, false, fuel, e) {
        Err(k) => k != Fault::Malformed,
        Ok((x, _)) => x.head matches Head::Var(v) && match whnf(
            g,
            q.goal,
            true,
            false,
            fuel,
            f,
        ) {
            Err(k) => k != Fault::Malformed,
            Ok((y, _)) => y.head matches Head::Var(w) && v.same(w) && satisfied(
                reduce_args(
                    g,
                    EquationView { premise: x.term, goal: y.term, ..q },
                    id,
                    0,
                    p,
                    fuel,
                ),
                p,
            ),
        },
    }
}

/// Whether `q2` holds if its sides are those of `q` with their identifiers renamed by `r`.
pub open spec fn instance_holds(
    g: Heap,
    r: Map<u64, u64>,
    q: EquationView,
    q2: EquationView,
    fuel: nat,
    e: Effects,
    f: Effects,
    id: u64,
    p: Progress,
) -> bool {
    renamed_sides(r, q, q2) ==> equal_sides(g, q2, fuel, e, f, id, p)
}

/// Whether the equation holds, whatever its identifiers are.
pub open spec fn equation_holds(g: Heap, q: EquationView) -> bool {
    forall|
        r: Map<u64, u64>,
        q2: EquationView,
        fuel: nat,
        e: Effects,
        f: Effects,
        id: u64,
        p: Progress,
    | #[trigger]
        instance_holds(g, r, q, q2, fuel, e, f, id, p)
}

/// Whether the constraint holds: an equation because its sides are equal, a redex because it is
/// not there.
pub open spec fn holds(g: Heap, c: ConstraintView) -> bool {
    match c {
        ConstraintView::Equation(q) => equation_holds(g, q),
        ConstraintView::Redex(r) => walk(g, r.instructions, r.position as nat, r.blame) == Ok::<
            Walk,
            Fault,
        >(Walk::Differs),
    }
}

/// Whether the constraints that were added to those of `p` hold.
pub open spec fn additions_hold(g: Heap, p: Progress, p2: Progress) -> bool {
    forall|k: int|
        p.constraints.len() <= k < p2.constraints.len() ==> holds(g, #[trigger] p2.constraints[k])
}

proof fn lemma_instance(
    g: Heap,
    r: Map<u64, u64>,
    q: EquationView,
    q2: EquationView,
    fuel: nat,
    e: Effects,
    f: Effects,
    id: u64,
    p: Progress,
)
    requires
        equation_holds(g, q),
        renamed_sides(r, q, q2),
    ensures
        equal_sides(g, q2, fuel, e, f, id, p),
{
    assert(instance_holds(g, r, q, q2, fuel, e, f, id, p));
}

proof fn lemma_sides_reduce(g: Heap, q: EquationView, p: Progress, fuel: nat)
    requires
        fuel > 0 ==> forall|e: Effects, f: Effects, id: u64, s: Progress| #[trigger]
            equal_sides(g, q, (fuel - 1) as nat, e, f, id, s),
    ensures
        satisfied(reduce_equation(g, q, p, fuel), p),
{
    if p.effects.links <= LINK_LIMIT && fuel > 0 {
        let less = (fuel - 1) as nat;
        assert(equal_sides(g, q, less, p.effects, p.effects, 0, p));
        law_whnf_normal(g, q.premise, true, false, less, p.effects);
        match whnf(g, q.premise, true, false, less, p.effects) {
            Err(_) => {},
            Ok((x, e)) => {
                assert(equal_sides(g, q, less, p.effects, e, 0, p));
                match whnf(g, q.goal, true, false, less, e) {
                    Err(_) => {},
                    Ok((y, e2)) => {
                        let s = p.with(e2.plus(1, 0));
                        assert(equal_sides(g, q, less, p.effects, e, e2.next, s));
                    },
                }
            },
        }
    }
}

proof fn lemma_sides_hold(
    h: Heap,
    g: Heap,
    r: Map<u64, u64>,
    q: EquationView,
    q2: EquationView,
    p: Progress,
    fuel: nat,
    fuel2: nat,
    e: Effects,
    f: Effects,
    id: u64,
    s: Progress,
)
    requires
        grows(h, g),
        keeps_forms(h, g),
        under(r, p.effects.next),
        renamed_sides(r, q, q2),
        reduce_equation(h, q, p, fuel) matches Ok((true, p2)) && additions_hold(g, p, p2),
    ensures
        equal_sides(g, q2, fuel2, e, f, id, s),
    decreases fuel, 1nat, 0nat,
{
    let p2 = (reduce_equation(h, q, p, fuel)->Ok_0).1;
    let less = (fuel - 1) as nat;
    let (w, e1) = whnf(h, q.premise, true, false, less, p.effects)->Ok_0;
    let left = whnf(g, q2.premise, true, false, fuel2, e);
    assert(followed(h, g, r, q.premise, q2.premise, less, p.effects, fuel2, e));
    if !broken_off(left) {
        let (r1, t, e2) = choose|r1: Map<u64, u64>, t: TermView, e2: Effects| #[trigger]
            leads_over(g, r, r1, w, e1.next, q2.premise, t, fuel2, e, e2);
        lemma_renamed_more(r, r1, q.goal.es, q2.goal.es);
        match w.head {
            Head::Meta(m) => {
                let c = EquationView { premise: w.term, ..q };
                assert(p2.constraints[p.constraints.len() as int] == ConstraintView::Equation(c));
                assert(holds(g, ConstraintView::Equation(c)));
                let q3 = EquationView { premise: t, ..q2 };
                lemma_instance(g, r1, c, q3, fuel2, e2, f, id, s);
            },
            Head::Var(v) => {
                law_whnf_normal(h, q.premise, true, false, less, p.effects);
                let (z, e3) = whnf(h, q.goal, true, false, less, e1)->Ok_0;
                let right = whnf(g, q2.goal, true, false, fuel2, f);
                assert(followed(h, g, r1, q.goal, q2.goal, less, e1, fuel2, f));
                if !broken_off(right) {
                    let (r2, u, f2) = choose|r2: Map<u64, u64>, u: TermView, f2: Effects| #[trigger]
                        leads_over(g, r1, r2, z, e3.next, q2.goal, u, fuel2, f, f2);
                    lemma_renamed_more(r1, r2, w.term.es, t.es);
                    let sides = EquationView { premise: w.term, goal: z.term, ..q };
                    let sides2 = EquationView { premise: t, goal: u, ..q2 };
                    match z.head {
                        Head::Meta(m) => {
                            assert(p2.constraints[p.constraints.len() as int]
                                == ConstraintView::Equation(sides));
                            assert(holds(g, ConstraintView::Equation(sides)));
                            lemma_instance(g, r2, sides, sides2, fuel2, e2, f2, id, s);
                        },
                        Head::Var(_) => {
                            law_whnf_normal(h, q.goal, true, false, less, e1);
                            let r3 = r2.insert(e3.next, id);
                            assert(includes(r3, r2));
                            lemma_renamed_more(r2, r3, w.term.es, t.es);
                            lemma_renamed_more(r2, r3, z.term.es, u.es);
                            let p1 = p.with(e3.plus(1, 0));
                            assert(under(r3, p1.effects.next));
                            lemma_args_hold(
                                h,
                                g,
                                r3,
                                sides,
                                sides2,
                                e3.next,
                                id,
                                0,
                                p1,
                                s,
                                less,
                                fuel2,
                            );
                        },
                    }
                }
            },
        }
    }
}

proof fn lemma_args_hold(
    h: Heap,
    g: Heap,
    r: Map<u64, u64>,
    q: EquationView,
    q2: EquationView,
    id: u64,
    id2: u64,
    i: nat,
    p: Progress,
    s: Progress,
    fuel: nat,
    fuel2: nat,
)
    requires
        grows(h, g),
        keeps_forms(h, g),
        h.assigned(q.premise.base),
        maps(r, id, id2),
        under(r, p.effects.next),
        renamed_sides(r, q, q2),
        reduce_args(h, q, id, i, p, fuel) matches Ok((true, p2)) && additions_hold(g, p, p2),
    ensures
        satisfied(reduce_args(g, q2, id2, i, s, fuel2), s),
    decreases fuel + 1, 0nat, args_of(h, q.premise.base).len() - i,
{
    let p3 = (reduce_args(h, q, id, i, p, fuel)->Ok_0).1;
    assert(g.metas[q.premise.base as int].bindings == h.metas[q.premise.base as int].bindings);
    let args = args_of(h, q.premise.base);
    assert(args_of(g, q2.premise.base) == args);
    if i < args.len() {
        let k = i as int;
        assert(g.metas[q.goal.base as int].bindings == h.metas[q.goal.base as int].bindings);
        let others = args_of(h, q.goal.base);
        assert(args_of(g, q2.goal.base) == others);
        let (x, y) = (h.metas[args[k] as int].bindings, h.metas[others[k] as int].bindings);
        assert(g.metas[args[k] as int].bindings == x);
        assert(g.metas[others[k] as int].bindings == y);
        if s.effects.can_draw(2) {
            let made = links(x) + links(y);
            let (n, n2) = (p.effects.next, s.effects.next);
            let (left, right) = (vars_entry(id, n), vars_entry(id, (n + STRIDE) as u64));
            let (left2, right2) = (vars_entry(id2, n2), vars_entry(id2, (n2 + STRIDE) as u64));
            let next = EquationView {
                premise: argument(h, q.premise, k, left),
                goal: argument(h, q.goal, k, right),
                ..q
            };
            let next2 = EquationView {
                premise: argument(g, q2.premise, k, left2),
                goal: argument(g, q2.goal, k, right2),
                ..q2
            };
            let p1 = p.with(p.effects.plus(2, made));
            let s1 = s.with(s.effects.plus(2, made));
            let r1 = with_two(r, n, n2);
            lemma_with_two(r, n, n2);
            lemma_renamed_more(r, r1, q.premise.es, q2.premise.es);
            lemma_renamed_more(r, r1, q.goal.es, q2.goal.es);
            lemma_renamed_appended(
                r1,
                q.premise.es,
                q2.premise.es,
                NodeView { entry: left, bindings: x },
                NodeView { entry: left2, bindings: x },
            );
            lemma_renamed_appended(
                r1,
                q.goal.es,
                q2.goal.es,
                NodeView { entry: right, bindings: y },
                NodeView { entry: right2, bindings: y },
            );
            let p2 = (reduce_equation(h, next, p1, fuel)->Ok_0).1;
            assert(reduce_equation(h, next, p1, fuel) == Ok::<(bool, Progress), Fault>(
                (true, p2),
            ));
            law_equation_progresses(h, next, p1, fuel);
            lemma_args_progress(h, q, id, i + 1, p2, fuel);
            assert(additions_hold(g, p1, p2)) by {
                assert forall|j: int|
                    p1.constraints.len() <= j < p2.constraints.len() implies holds(
                    g,
                    #[trigger] p2.constraints[j],
                ) by {
                    assert(p3.constraints[j] == p2.constraints[j]);
                }
            }
            if fuel2 > 0 {
                assert forall|e: Effects, f: Effects, v: u64, z: Progress| #[trigger]
                    equal_sides(g, next2, (fuel2 - 1) as nat, e, f, v, z) by {
                    lemma_sides_hold(
                        h,
                        g,
                        r1,
                        next,
                        next2,
                        p1,
                        fuel,
                        (fuel2 - 1) as nat,
                        e,
                        f,
                        v,
                        z,
                    );
                }
            }
            lemma_sides_reduce(g, next2, s1, fuel2);
            match reduce_equation(g, next2, s1, fuel2) {
                Ok((true, s2)) => {
                    lemma_args_hold(h, g, r1, q, q2, id, id2, i + 1, p2, s2, fuel, fuel2);
                    lemma_args_progress(g, q2, id2, i + 1, s2, fuel2);
                },
                _ => {},
            }
        }
    }
}

/// The walk of a redex goes on from where it was stuck.
proof fn lemma_walk_goes_on(
    h: Heap,
    g: Heap,
    instructions: Seq<Instruction>,
    i: nat,
    blame: MetaId,
)
    requires
        grows(h, g),
    ensures
        match walk(h, instructions, i, blame) {
            Ok(Walk::Stuck(k, m)) => walk(g, instructions, i, blame) == walk(
                g,
                instructions,
                k,
                m,
            ),
            Ok(Walk::Differs) => walk(g, instructions, i, blame) == Ok::<Walk, Fault>(
                Walk::Differs,
            ),
            _ => true,
        },
    decreases instructions.len() - i,
{
    if h.assigned(blame) {
        assert(g.metas[blame as int].parent == h.metas[blame as int].parent);
        if i < instructions.len() - 1 {
            lemma_ancestor_kept(h, g, blame, instructions[i as int].parents as nat);
            if let Some(m) = ancestor(h, blame, instructions[i as int].parents as nat) {
                let child = instructions[i as int].child as int;
                if h.assigned(m) && child < args_of(h, m).len() {
                    assert(g.metas[m as int].parent == h.metas[m as int].parent);
                    lemma_walk_goes_on(h, g, instructions, i + 1, args_of(h, m)[child]);
                }
            }
        }
    }
}

proof fn lemma_ancestor_kept(h: Heap, g: Heap, m: MetaId, n: nat)
    requires
        grows(h, g),
    ensures
        ancestor(h, m, n) is Some ==> ancestor(g, m, n) == ancestor(h, m, n),
    decreases n,
{
    if n > 0 && m < h.metas.len() {
        assert(g.metas[m as int].parent == h.metas[m as int].parent);
        if let Some(p) = h.metas[m as int].parent {
            lemma_ancestor_kept(h, g, p, (n - 1) as nat);
        }
    }
}

/// A constraint that was found to hold but for what it left stuck holds where that does.
proof fn lemma_constraint_holds(
    h: Heap,
    g: Heap,
    c: ConstraintView,
    p: Progress,
    fuel: nat,
)
    requires
        grows(h, g),
        keeps_forms(h, g),
        drawn_constraint(c, p.effects.next),
        reduce_constraint(h, c, p, fuel) matches Ok((true, p2)) && additions_hold(g, p, p2),
    ensures
        holds(g, c),
{
    let p2 = (reduce_constraint(h, c, p, fuel)->Ok_0).1;
    match c {
        ConstraintView::Equation(q) => {
            assert forall|
                r: Map<u64, u64>,
                q2: EquationView,
                fuel2: nat,
                e: Effects,
                f: Effects,
                id: u64,
                s: Progress,
            | #[trigger]
                instance_holds(g, r, q, q2, fuel2, e, f, id, s) by {
                if renamed_sides(r, q, q2) {
                    let less = restricted(r, p.effects.next);
                    lemma_restricted(r, p.effects.next, q.premise.es, q2.premise.es);
                    lemma_restricted(r, p.effects.next, q.goal.es, q2.goal.es);
                    lemma_sides_hold(h, g, less, q, q2, p, fuel, fuel2, e, f, id, s);
                }
            }
        },
        ConstraintView::Redex(r) => {
            lemma_walk_goes_on(h, g, r.instructions, r.position as nat, r.blame);
            law_walk_stuck(h, r.instructions, r.position as nat, r.blame);
            if let Ok(Walk::Stuck(k, m)) = walk(h, r.instructions, r.position as nat, r.blame) {
                let left = p2.constraints[p.constraints.len() as int];
                assert(holds(g, left));
            }
        },
    }
}

/// Whether propagating `c` finds that it holds, with nothing left stuck, at any depth and whatever
/// comes before, unless depth or identifiers run out or too many links are made.
pub open spec fn settled(g: Heap, c: ConstraintView) -> bool {
    forall|p: Progress, fuel: nat| satisfied(#[trigger] reduce_constraint(g, c, p, fuel), p)
}

proof fn lemma_settled(g: Heap, c: ConstraintView)
    requires
        holds(g, c),
    ensures
        settled(g, c),
{
    assert forall|p: Progress, fuel: nat| satisfied(
        #[trigger] reduce_constraint(g, c, p, fuel),
        p,
    ) by {
        if let ConstraintView::Equation(q) = c {
            lemma_unchanged(q.premise.es);
            lemma_unchanged(q.goal.es);
            if fuel > 0 {
                assert forall|e: Effects, f: Effects, id: u64, s: Progress| #[trigger]
                    equal_sides(g, q, (fuel - 1) as nat, e, f, id, s) by {
                    assert(instance_holds(
                        g,
                        unchanged(),
                        q,
                        q,
                        (fuel - 1) as nat,
                        e,
                        f,
                        id,
                        s,
                    ));
                }
            }
            lemma_sides_reduce(g, q, p, fuel);
        }
    }
}

/// A test of an assignment: what was assigned at the time, the assignment among it, the effects so
/// far, and the permitted depth.
pub struct Trial {
    pub heap: Heap,
    pub effects: Effects,
    pub fuel: nat,
}

impl Trial {
    /// What the test of the assignment made to `m` came to.
    pub open spec fn outcome(self, m: MetaId) -> Result<(bool, Progress), Fault> {
        reduce_all(
            self.heap,
            obligations(self.heap, m),
            0,
            Progress {
                constraints: Seq::empty(),
                changes: Seq::empty(),
                effects: self.effects,
            },
            self.fuel,
        )
    }

    /// The constraints that the test left stuck, and the metavariables that they are stuck on.
    pub open spec fn left(self, m: MetaId) -> Progress {
        (self.outcome(m)->Ok_0).1
    }
}

/// Whether all of `cs` are drawn before `next`.
pub open spec fn all_drawn(cs: Seq<ConstraintView>, next: u64) -> bool {
    forall|k: int| 0 <= k < cs.len() ==> drawn_constraint(#[trigger] cs[k], next)
}

/// Whether each of the constraints is imposed on the metavariable that it is stuck on.
pub open spec fn in_place(g: Heap, p: Progress) -> bool {
    forall|k: int|
        0 <= k < p.changes.len() ==> (#[trigger] p.changes[k]) < g.metas.len()
            && g.metas[p.changes[k] as int].constraints.contains(p.constraints[k])
}

/// Whether the assignment of `m` was found possible by `t`, at a time from which nothing has been
/// taken back, and no constraint has come to `m` since. What the test left stuck was imposed.
pub open spec fn tested(g: Heap, m: MetaId, t: Trial) -> bool {
    &&& grows(t.heap, g)
    &&& t.heap.assigned(m)
    &&& obligations(t.heap, m) == obligations(g, m)
    &&& all_drawn(obligations(g, m), t.effects.next)
    &&& t.outcome(m) matches Ok((true, p)) && in_place(g, p)
}

/// A step of a search: an assignment, and its test.
pub struct Step {
    pub meta: MetaId,
    pub trial: Trial,
}

/// Whether `steps` lead from `start` to `g`: each was tested, and left constraints on metavariables
/// only that were assigned after it. There are no other assignments.
pub open spec fn recorded(start: Heap, g: Heap, steps: Seq<Step>) -> bool {
    &&& grows(start, g)
    &&& forall|i: int|
        0 <= i < steps.len() ==> tested(g, (#[trigger] steps[i]).meta, steps[i].trial) && grows(
            start,
            steps[i].trial.heap,
        )
    &&& forall|i: int, j: int|
        0 <= j <= i < steps.len() ==> apart(#[trigger] steps[i], #[trigger] steps[j])
    &&& forall|y: MetaId| #[trigger]
        g.assigned(y) ==> start.assigned(y) || made(steps, y)
}

/// Whether the test of `a` left no constraint on the metavariable of `b`.
pub open spec fn apart(a: Step, b: Step) -> bool {
    forall|k: int|
        0 <= k < a.trial.left(a.meta).changes.len() ==> #[trigger] a.trial.left(a.meta).changes[k]
            != b.meta
}

/// Whether the assignment of `y` is one of the steps.
pub open spec fn made(steps: Seq<Step>, y: MetaId) -> bool {
    exists|j: int| 0 <= j < steps.len() && (#[trigger] steps[j]).meta == y
}

/// Whether every metavariable that a test left a constraint on is assigned.
pub open spec fn nothing_open(g: Heap, steps: Seq<Step>) -> bool {
    forall|i: int, k: int|
        #![trigger steps[i].trial.left(steps[i].meta).changes[k]]
        0 <= i < steps.len() && 0 <= k < steps[i].trial.left(steps[i].meta).changes.len()
            ==> g.assigned(steps[i].trial.left(steps[i].meta).changes[k])
}

/// Whether reductions in `g` lose nothing that was found in the tests.
pub open spec fn forms_kept(g: Heap, steps: Seq<Step>) -> bool {
    forall|i: int| 0 <= i < steps.len() ==> keeps_forms((#[trigger] steps[i]).trial.heap, g)
}

proof fn lemma_all_hold(
    h: Heap,
    g: Heap,
    cs: Seq<ConstraintView>,
    k: nat,
    p: Progress,
    fuel: nat,
    j: int,
)
    requires
        grows(h, g),
        keeps_forms(h, g),
        all_drawn(cs, p.effects.next),
        reduce_all(h, cs, k, p, fuel) matches Ok((true, p2)) && additions_hold(g, p, p2),
        k <= j < cs.len(),
    ensures
        holds(g, cs[j]),
    decreases cs.len() - k,
{
    let p3 = (reduce_all(h, cs, k, p, fuel)->Ok_0).1;
    let c = cs[k as int];
    let p2 = (reduce_constraint(h, c, p, fuel)->Ok_0).1;
    law_all_progress(h, seq![c], 0, p, fuel);
    assert(seq![c][0] == c);
    assert(reduce_all(h, seq![c], 1, p2, fuel) == Ok::<(bool, Progress), Fault>((true, p2)));
    assert(reduce_all(h, seq![c], 0, p, fuel) == Ok::<(bool, Progress), Fault>((true, p2)));
    law_all_progress(h, cs, k + 1, p2, fuel);
    if j == k {
        assert(additions_hold(g, p, p2)) by {
            assert forall|i: int| p.constraints.len() <= i < p2.constraints.len() implies holds(
                g,
                #[trigger] p2.constraints[i],
            ) by {
                assert(p3.constraints[i] == p2.constraints[i]);
            }
        }
        lemma_constraint_holds(h, g, c, p, fuel);
    } else {
        assert forall|i: int| 0 <= i < cs.len() implies drawn_constraint(
            #[trigger] cs[i],
            p2.effects.next,
        ) by {
            lemma_drawn_later(cs[i], p.effects.next, p2.effects.next);
        }
        lemma_all_hold(h, g, cs, k + 1, p2, fuel, j);
    }
}

pub proof fn lemma_drawn_later(c: ConstraintView, next: u64, later: u64)
    requires
        drawn_constraint(c, next),
        next <= later,
    ensures
        drawn_constraint(c, later),
{
    if let ConstraintView::Equation(q) = c {
        lemma_es_drawn_later(q.premise.es, next, later);
        lemma_es_drawn_later(q.goal.es, next, later);
    }
}

pub proof fn lemma_es_drawn_later(es: Seq<NodeView>, next: u64, later: u64)
    requires
        drawn(es, next),
        next <= later,
    ensures
        drawn(es, later),
    decreases es,
{
    assert forall|i: int| 0 <= i < es.len() implies drawn_node(#[trigger] es[i], later) by {
        if let Some(s) = es[i].entry.subst {
            lemma_es_drawn_later(s.es, next, later);
        }
        if let Some(t) = es[i].entry.context {
            lemma_es_drawn_later(t.es, next, later);
        }
    }
    lemma_drawn_by(es, later);
}

proof fn lemma_steps_hold(start: Heap, g: Heap, steps: Seq<Step>, i: int, j: int)
    requires
        recorded(start, g, steps),
        nothing_open(g, steps),
        forms_kept(g, steps),
        0 <= i < steps.len(),
        0 <= j < obligations(g, steps[i].meta).len(),
    ensures
        holds(g, obligations(g, steps[i].meta)[j]),
    decreases steps.len() - i,
{
    let m = steps[i].meta;
    let t = steps[i].trial;
    let p = t.left(m);
    let first = Progress {
        constraints: Seq::empty(),
        changes: Seq::empty(),
        effects: t.effects,
    };
    assert(tested(g, m, t));
    law_all_progress(t.heap, obligations(t.heap, m), 0, first, t.fuel);
    assert(progresses(t.heap, first, p));
    assert forall|k: int| 0 <= k < p.constraints.len() implies holds(
        g,
        #[trigger] p.constraints[k],
    ) by {
        let y = p.changes[k];
        assert(t.left(m).changes[k] == y);
        assert(g.assigned(y));
        assert(open_meta(t.heap, y));
        if start.assigned(y) {
            assert(grows(start, t.heap));
            assert(t.heap.metas[y as int].parent == start.metas[y as int].parent);
        }
        assert(made(steps, y));
        let n = choose|n: int| 0 <= n < steps.len() && (#[trigger] steps[n]).meta == y;
        if n <= i {
            assert(apart(steps[i], steps[n]));
        }
        let cs = g.metas[y as int].constraints;
        assert(cs.contains(p.constraints[k]));
        let at = choose|at: int| 0 <= at < cs.len() && cs[at] == p.constraints[k];
        let all = obligations(g, y);
        let last = all.len() - cs.len() + at;
        assert(all[last] == cs[at]);
        lemma_steps_hold(start, g, steps, n, last);
    }
    lemma_all_hold(t.heap, g, obligations(t.heap, m), 0, first, t.fuel, j);
}

/// Where every metavariable that a constraint was left on has been assigned, everything that the
/// assignments had to respect holds, with nothing left stuck: the equations of types, the redexes
/// to be kept out, and all constraints that were imposed on the way.
pub proof fn law_steps_settled(start: Heap, g: Heap, steps: Seq<Step>, i: int, j: int)
    requires
        recorded(start, g, steps),
        nothing_open(g, steps),
        forms_kept(g, steps),
        0 <= i < steps.len(),
        0 <= j < obligations(g, steps[i].meta).len(),
    ensures
        settled(g, obligations(g, steps[i].meta)[j]),
{
    lemma_steps_hold(start, g, steps, i, j);
    lemma_settled(g, obligations(g, steps[i].meta)[j]);
}

pub proof fn lemma_occurs_assigned(h: Heap, m: MetaId, x: MetaId)
    requires
        leaves(h, m).len() == 0,
        occurs(h, m, x as int),
    ensures
        h.assigned(x),
    decreases h.metas.len() - m,
{
    if x != m {
        let i = choose|i: int|
            0 <= i < args_of(h, m).len() && m < #[trigger] args_of(h, m)[i] < h.metas.len()
                && occurs(h, args_of(h, m)[i], x as int);
        lemma_no_leaves(h, m, args_of(h, m).len(), i);
        lemma_occurs_assigned(h, args_of(h, m)[i], x);
    }
}

proof fn lemma_no_leaves(h: Heap, m: MetaId, k: nat, i: int)
    requires
        args_leaves(h, m, k).len() == 0,
        0 <= i < k <= args_of(h, m).len(),
        m < args_of(h, m)[i] < h.metas.len(),
    ensures
        leaves(h, args_of(h, m)[i]).len() == 0,
    decreases k,
{
    if i < k - 1 {
        lemma_no_leaves(h, m, (k - 1) as nat, i);
    }
}

/// In a complete solution every constraint that was imposed on the way holds, with nothing left
/// stuck, provided that the constraints were left on metavariables of the term.
pub proof fn law_solution_settled(
    start: Heap,
    h: Heap,
    p: ProverView,
    steps: Seq<Step>,
    x: MetaId,
    j: int,
)
    requires
        in_order(h, p),
        lists_all_leaves(p, None),
        p.frames.len() == 0,
        recorded(start, h, steps),
        forms_kept(h, steps),
        forall|i: int, k: int|
            #![trigger steps[i].trial.left(steps[i].meta).changes[k]]
            0 <= i < steps.len() && 0 <= k < steps[i].trial.left(steps[i].meta).changes.len()
                ==> occurs(h, p.meta, steps[i].trial.left(steps[i].meta).changes[k] as int),
        occurs(h, p.meta, x as int),
        !start.assigned(x),
        0 <= j < obligations(h, x).len(),
    ensures
        settled(h, obligations(h, x)[j]),
{
    law_solution_complete(h, p);
    assert forall|i: int, k: int|
        #![trigger steps[i].trial.left(steps[i].meta).changes[k]]
        0 <= i < steps.len() && 0 <= k
            < steps[i].trial.left(steps[i].meta).changes.len() implies h.assigned(
        steps[i].trial.left(steps[i].meta).changes[k],
    ) by {
        lemma_occurs_assigned(h, p.meta, steps[i].trial.left(steps[i].meta).changes[k]);
    }
    lemma_occurs_assigned(h, p.meta, x);
    assert(made(steps, x));
    let i = choose|i: int| 0 <= i < steps.len() && (#[trigger] steps[i]).meta == x;
    law_steps_settled(start, h, steps, i, j);
}

} // verus!
