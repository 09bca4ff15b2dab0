//! From terms with De Bruijn indices back to written ones.
use crate::constraint::fresh;
use crate::data::{
    strings, type_view, BindId, Constraint, ConstraintView, Entry, Head, Linked, MetaId, Node,
    NodeView, Term, TermView, Type, TypeView, WhnfView, ES, WHNF,
};
use crate::es::{appended, depths, links, variables, vars_entry};
use crate::ids::{next_u64, Fault, Ids, STRIDE};
use crate::index::{DeBruijnIndex, Index, Indexed, Polarity, Slots};
use crate::ir::{
    let_view, let_views, spine_view, term_view, term_views, var_names, IRLet, IRLetView, IRSpine,
    IRSpineView, IRTerm, IRTermView, IRVar,
};
use crate::memory::{Heap, Store};
use crate::names::{binds_present, disambiguate, renamed_slots, with_renamed};
use crate::search::{attempt, law_test_frame};
use crate::shown::shown_spine;
use crate::term::{arg_bindings, args_of, argument, effects, has_arg, whnf, Effects};
use crate::text::{append_decimal, decimal};
use crate::types::codomain;
use std::rc::Rc;
use vstd::prelude::*;

verus! {

/// Notes the rules that are applied in reducing `t` and its arguments to normal form.
pub open spec fn note_rules(h: Heap, t: TermView, fuel: nat, e: Effects) -> Result<Effects, Fault>
    decreases fuel, 1nat, 0nat,
{
    if fuel == 0 {
        Err(Fault::Overflow)
    } else {
        match whnf(h, t, true, true, (fuel - 1) as nat, e) {
            Err(f) => Err(f),
            Ok((w, e2)) => if h.assigned(w.term.base) {
                note_args(h, w.term, 0, (fuel - 1) as nat, e2)
            } else {
                Ok(e2)
            },
        }
    }
}

/// Notes the rules that are applied in reducing the arguments of `t`, from the `i`th on.
pub open spec fn note_args(h: Heap, t: TermView, i: nat, fuel: nat, e: Effects) -> Result<
    Effects,
    Fault,
>
    decreases fuel + 1, 0nat, args_of(h, t.base).len() - i,
{
    if i >= args_of(h, t.base).len() {
        Ok(e)
    } else if !has_arg(h, t, i as int) {
        Err(Fault::Malformed)
    } else if !e.can_draw(2) {
        Err(Fault::Exhausted)
    } else {
        let arg = argument(h, t, i as int, vars_entry(e.next, (e.next + STRIDE) as u64));
        match note_rules(h, arg, fuel, e.plus(2, links(arg_bindings(h, t, i as int)))) {
            Err(f) => Err(f),
            Ok(e2) => note_args(h, t, i + 1, fuel, e2),
        }
    }
}

/// The rules that are applied in reducing the codomain of a type, where there is one. Also gives
/// the next identifier.
pub open spec fn rules_of(h: Heap, t: Option<TypeView>, fuel: nat, next: u64) -> Result<
    (Seq<Seq<char>>, u64),
    Fault,
> {
    match t {
        None => Ok((Seq::empty(), next)),
        Some(ty) => match note_rules(h, codomain(ty), fuel, fresh(next)) {
            Err(f) => Err(f),
            Ok(e) => Ok((e.noted, e.next)),
        },
    }
}

/// Reduces `term` and its arguments, noting the rules that are applied.
fn note(
    store: &Store,
    term: &Term,
    attribution: &mut Vec<String>,
    owned_linked: &mut Vec<Rc<Linked>>,
    fuel: usize,
    ids: &mut Ids,
) -> (r: Result<(), Fault>)
    ensures
        note_rules(
            store@,
            term@,
            fuel as nat,
            effects(*old(ids), old(owned_linked)@, *old(attribution)),
        ) == match r {
            Ok(()) => Ok::<Effects, Fault>(
                effects(*final(ids), final(owned_linked)@, *final(attribution)),
            ),
            Err(f) => Err(f),
        },
    decreases fuel,
{
    if fuel == 0 {
        return Err(Fault::Overflow);
    }
    let ghost e0 = effects(*ids, owned_linked@, *attribution);
    let w: WHNF = match term.whnf::<true, Vec<String>>(
        store,
        fuel - 1,
        ids,
        owned_linked,
        attribution,
    ) {
        Err(f) => {
            return Err(f);
        },
        Ok(w) => w,
    };
    if !store.has_meta(w.0.base) {
        return Ok(());
    }
    let n: usize = match &store.meta(w.0.base).assignment {
        None => {
            return Ok(());
        },
        Some(a) => a.args.len(),
    };
    let ghost goal = note_rules(store@, term@, fuel as nat, e0);
    let mut i: usize = 0;
    while i < n
        invariant
            0 < fuel,
            i <= n,
            n == args_of(store@, w.0@.base).len(),
            goal == note_rules(
                store@,
                term@,
                fuel as nat,
                effects(*old(ids), old(owned_linked)@, *old(attribution)),
            ),
            goal == note_args(
                store@,
                w.0@,
                i as nat,
                (fuel - 1) as nat,
                effects(*ids, owned_linked@, *attribution),
            ),
        decreases n - i,
    {
        if !w.0.can_arg(store, i) {
            return Err(Fault::Malformed);
        }
        if ids.next > u64::MAX - 2 * STRIDE {
            return Err(Fault::Exhausted);
        }
        let params_id: u64 = next_u64(ids);
        let entry = Entry::vars(params_id, ids);
        let arg: Term = w.0.arg(store, i, entry, owned_linked);
        match note(store, &arg, attribution, owned_linked, fuel - 1, ids) {
            Err(f) => {
                return Err(f);
            },
            Ok(()) => {},
        }
        i = i + 1;
    }
    Ok(())
}

/// The rules that are applied in reducing the codomain of a type.
pub fn get_rules(store: &Store, typ: &Option<Type>, fuel: usize, ids: &mut Ids) -> (r: Result<
    Vec<String>,
    Fault,
>)
    ensures
        rules_of(store@, type_view(*typ), fuel as nat, old(ids).next) == match r {
            Ok(v) => Ok::<(Seq<Seq<char>>, u64), Fault>((strings(v@), final(ids).next)),
            Err(f) => Err(f),
        },
{
    let mut attribution: Vec<String> = Vec::new();
    assert(strings(attribution@) =~= Seq::empty());
    match typ {
        None => Ok(attribution),
        Some(t) => {
            let mut owned_linked: Vec<Rc<Linked>> = Vec::new();
            assert(effects(*ids, owned_linked@, attribution) == fresh(ids.next));
            match note(store, &t.codomain(), &mut attribution, &mut owned_linked, fuel, ids) {
                Err(f) => Err(f),
                Ok(()) => Ok(attribution),
            }
        },
    }
}

/// The names of binds.
pub open spec fn bind_names(h: Heap, bs: Seq<BindId>) -> Seq<Seq<char>> {
    bs.map_values(|b: BindId| h.binds[b as int].name)
}

/// Let declarations with the names of binds, and without rules.
pub open spec fn bare_lets(h: Heap, bs: Seq<BindId>) -> Seq<IRLetView> {
    bs.map_values(
        |b: BindId| IRLetView { name: h.binds[b as int].name, rules: Seq::empty() },
    )
}

/// A term in weak head normal form as a written spine. The names of what its arguments bind are
/// chosen so that they are not in use. A metavariable is written as its name, or if `html` as a
/// control by which it can be refined. Also gives the heap with the binds that were added, and
/// the next identifier.
pub open spec fn read_body(
    h: Heap,
    w: WhnfView,
    rules: bool,
    html: bool,
    fuel: nat,
    next: u64,
) -> Result<(Heap, IRSpineView, u64), Fault>
    decreases fuel, 4nat, 0nat,
{
    match w.head {
        Head::Meta(m) => if html {
            match meta_text(h, m, fuel, next) {
                Err(f) => Err(f),
                Ok((head, n)) => Ok(
                    (
                        h,
                        IRSpineView { head, args: Seq::empty(), premise_rules: Seq::empty() },
                        n,
                    ),
                ),
            }
        } else {
            read_meta(h, w.term, m, rules, fuel, next)
        },
        Head::Var(v) => if !h.assigned(w.term.base) || v.bind >= h.binds.len() {
            Err(Fault::Malformed)
        } else {
            let args = args_of(h, w.term.base);
            match read_args(h, w.term.es, args, rules, html, args.len(), fuel, next) {
                Err(f) => Err(f),
                Ok((g, ts, n)) => match rules_of(
                    g,
                    h.metas[w.term.base as int].assignment->0.var_type,
                    fuel,
                    n,
                ) {
                    Err(f) => Err(f),
                    Ok((premise_rules, n2)) => Ok(
                        (
                            g,
                            IRSpineView {
                                head: h.binds[v.bind as int].name,
                                args: ts,
                                premise_rules,
                            },
                            n2,
                        ),
                    ),
                },
            }
        },
    }
}

/// What a metavariable is called.
pub open spec fn meta_name(h: Heap, m: MetaId) -> Option<Seq<char>> {
    if m >= h.metas.len() {
        None
    } else {
        match h.metas[m as int].typ {
            None => None,
            Some(t) => if t.bind >= h.binds.len() {
                None
            } else {
                Some("?&NoBreak;"@ + h.binds[t.bind as int].name)
            },
        }
    }
}

/// A term that is stuck on the metavariable `m` as a written spine: the name of the
/// metavariable, applied to what its parameters are instantiated with.
pub open spec fn read_meta(
    h: Heap,
    t: TermView,
    m: MetaId,
    rules: bool,
    fuel: nat,
    next: u64,
) -> Result<(Heap, IRSpineView, u64), Fault>
    decreases fuel, 3nat, 0nat,
{
    match meta_name(h, m) {
        None => Err(Fault::Malformed),
        Some(head) => if h.metas[m as int].bindings.params.len() == 0 {
            Ok((h, IRSpineView { head, args: Seq::empty(), premise_rules: Seq::empty() }, next))
        } else if t.es.len() == 0 {
            Err(Fault::Malformed)
        } else {
            match t.es[0].entry.subst {
                None => Ok(
                    (h, IRSpineView { head, args: Seq::empty(), premise_rules: Seq::empty() }, next),
                ),
                Some(s) => match read_args(
                    h,
                    s.es,
                    s.args,
                    rules,
                    false,
                    s.args.len(),
                    fuel,
                    next,
                ) {
                    Err(f) => Err(f),
                    Ok((g, args, n)) => Ok(
                        (g, IRSpineView { head, args, premise_rules: Seq::empty() }, n),
                    ),
                },
            }
        },
    }
}

/// The first `k` of the terms `args` in the context `es`, as written terms.
pub open spec fn read_args(
    h: Heap,
    es: Seq<NodeView>,
    args: Seq<MetaId>,
    rules: bool,
    html: bool,
    k: nat,
    fuel: nat,
    next: u64,
) -> Result<(Heap, Seq<IRTermView>, u64), Fault>
    decreases fuel, 2nat, k,
{
    if k == 0 || k > args.len() {
        Ok((h, Seq::empty(), next))
    } else {
        match read_args(h, es, args, rules, html, (k - 1) as nat, fuel, next) {
            Err(f) => Err(f),
            Ok((g, ts, n)) => match read_one(g, es, args[k - 1], rules, html, fuel, n) {
                Err(f) => Err(f),
                Ok((g2, t, n2)) => Ok((g2, ts.push(t), n2)),
            },
        }
    }
}

/// The term `m` in the context `es`, as a written term.
pub open spec fn read_one(
    h: Heap,
    es: Seq<NodeView>,
    m: MetaId,
    rules: bool,
    html: bool,
    fuel: nat,
    next: u64,
) -> Result<(Heap, IRTermView, u64), Fault>
    decreases fuel, 1nat, 0nat,
{
    if m >= h.metas.len() || !binds_present(h, h.metas[m as int].bindings.params)
        || !binds_present(h, h.metas[m as int].bindings.lets) {
        Err(Fault::Malformed)
    } else if next + 2 * STRIDE > u64::MAX {
        Err(Fault::Exhausted)
    } else {
        let bindings = h.metas[m as int].bindings;
        let slots = renamed_slots(h, bindings);
        let node = NodeView {
            entry: vars_entry(next, (next + STRIDE) as u64),
            bindings: slots,
        };
        read_lambda(
            with_renamed(h, bindings, es, Polarity::Goal),
            TermView { base: m, es: appended(es, node) },
            slots,
            rules,
            html,
            fuel,
            (next + 2 * STRIDE) as u64,
        )
    }
}

/// A term with the variables `slots` that it binds, as a written term.
pub open spec fn read_lambda(
    h: Heap,
    t: TermView,
    slots: Slots<BindId>,
    rules: bool,
    html: bool,
    fuel: nat,
    next: u64,
) -> Result<(Heap, IRTermView, u64), Fault>
    decreases fuel, 0nat, 0nat,
{
    if fuel == 0 {
        Err(Fault::Overflow)
    } else if t.base >= h.metas.len() || !binds_present(h, slots.params) || !binds_present(
        h,
        slots.lets,
    ) {
        Err(Fault::Malformed)
    } else {
        match rules_of(h, h.metas[t.base as int].typ, (fuel - 1) as nat, next) {
            Err(f) => Err(f),
            Ok((goal_rules, n)) => match whnf(
                h,
                t,
                rules,
                false,
                (fuel - 1) as nat,
                fresh(n),
            ) {
                Err(f) => Err(f),
                Ok((w, e)) => match read_body(h, w, rules, html, (fuel - 1) as nat, e.next) {
                    Err(f) => Err(f),
                    Ok((g, spine, n2)) => Ok(
                        (
                            g,
                            IRTermView {
                                params: bind_names(h, slots.params),
                                lets: bare_lets(h, slots.lets),
                                spine,
                                goal_rules,
                            },
                            n2,
                        ),
                    ),
                },
            },
        }
    }
}

/// The weak head normal form of a term as text. Also gives the next identifier.
pub open spec fn reduced_text(h: Heap, t: TermView, fuel: nat, next: u64) -> Result<
    (Seq<char>, u64),
    Fault,
>
    decreases fuel, 5nat, 0nat,
{
    match whnf(h, t, true, false, fuel, fresh(next)) {
        Err(f) => Err(f),
        Ok((w, e)) => match read_body(h, w, true, false, fuel, e.next) {
            Err(f) => Err(f),
            Ok((_, spine, n)) => Ok((shown_spine(spine), n)),
        },
    }
}

/// The names of the binds of the instructions from `i` on, separated by arrows.
pub open spec fn path_text(h: Heap, instructions: Seq<crate::data::Instruction>, from: int, k: int) -> Option<
    Seq<char>,
>
    decreases k - from,
{
    if k <= from {
        Some(Seq::empty())
    } else {
        match path_text(h, instructions, from, k - 1) {
            None => None,
            Some(s) => if instructions[k - 1].bind >= h.binds.len() {
                None
            } else if k - 1 == from {
                Some(h.binds[instructions[k - 1].bind as int].name)
            } else {
                Some(s + " → "@ + h.binds[instructions[k - 1].bind as int].name)
            },
        }
    }
}

/// A constraint for the tooltip of a metavariable. Also gives the next identifier.
pub open spec fn constraint_text(h: Heap, c: ConstraintView, fuel: nat, next: u64) -> Result<
    (Seq<char>, u64),
    Fault,
>
    decreases fuel, 6nat, 0nat,
{
    match c {
        ConstraintView::Equation(q) => match reduced_text(h, q.premise, fuel, next) {
            Err(f) => Err(f),
            Ok((lhs, n)) => match reduced_text(h, q.goal, fuel, n) {
                Err(f) => Err(f),
                Ok((rhs, n2)) => Ok(
                    ("<div class='constraint'>"@ + lhs + " ≡ "@ + rhs + "</div>"@, n2),
                ),
            },
        },
        ConstraintView::Redex(r) => match path_text(
            h,
            r.instructions,
            r.position as int,
            r.instructions.len() as int,
        ) {
            None => Err(Fault::Malformed),
            Some(path) => Ok(("<div class='constraint'>redex: "@ + path + "</div>"@, next)),
        },
    }
}

/// The first `k` constraints for the tooltip of a metavariable. Also gives the next identifier.
pub open spec fn constraints_text(
    h: Heap,
    cs: Seq<ConstraintView>,
    k: nat,
    fuel: nat,
    next: u64,
) -> Result<(Seq<char>, u64), Fault>
    decreases fuel, 7nat, k,
{
    if k == 0 || k > cs.len() {
        Ok((Seq::empty(), next))
    } else {
        match constraints_text(h, cs, (k - 1) as nat, fuel, next) {
            Err(f) => Err(f),
            Ok((s, n)) => match constraint_text(h, cs[k - 1], fuel, n) {
                Err(f) => Err(f),
                Ok((t, n2)) => Ok((s + t, n2)),
            },
        }
    }
}

/// The button by which the metavariable `m` is assigned the variable `db`.
pub open spec fn option_text(m: MetaId, db: DeBruijnIndex, name: Seq<char>) -> Seq<char> {
    let (index, def) = match db.1 {
        Index::Param(i) => (i, "false"@),
        Index::Let(i) => (i, "true"@),
    };
    "<button class='option' onclick='assign("@ + decimal(m as nat) + ", "@ + decimal(
        db.0.0 as nat,
    ) + ", "@ + decimal(index as nat) + ", "@ + def + ")'>"@ + name + "</button>"@
}

/// The buttons for those of the first `k` variables that can be assigned to `m`, and how many
/// there are. Also gives the next identifier.
pub open spec fn options_text(h: Heap, m: MetaId, k: nat, fuel: nat, next: u64) -> Result<
    (Seq<char>, nat, u64),
    Fault,
>
    decreases k,
{
    let es = h.metas[m as int].gamma;
    if k == 0 || k > variables(es).len() {
        Ok((Seq::empty(), 0, next))
    } else {
        match options_text(h, m, (k - 1) as nat, fuel, next) {
            Err(f) => Err(f),
            Ok((s, count, n)) => {
                let db = variables(es)[k - 1].0;
                match attempt(h, db, es[depths(es)[k - 1]], m, fuel, n) {
                    Err(f) => Err(f),
                    Ok((Some(Some(c)), _, n2)) => if c.assignment.bind >= h.binds.len() {
                        Err(Fault::Malformed)
                    } else {
                        let option = option_text(
                            m,
                            db,
                            h.binds[c.assignment.bind as int].name,
                        );
                        Ok(
                            (
                                if count == 0 {
                                    option
                                } else {
                                    s + "</br>"@ + option
                                },
                                count + 1,
                                n2,
                            ),
                        )
                    },
                    Ok((_, _, n2)) => Ok((s, count, n2)),
                }
            },
        }
    }
}

/// The control for a metavariable, from its parts.
pub open spec fn control_text(
    id: Seq<char>,
    name: Seq<char>,
    options: Seq<char>,
    constraints: Seq<char>,
    typ: Seq<char>,
) -> Seq<char> {
    "<label><input type='radio' name='meta' id='"@ + id + "' value='"@ + id
        + "'><div class='tooltip'><span class='meta'>"@ + name
        + "</span><div class='tooltiptext'><div class='provers'>"@ + options + "</div>"@
        + constraints + "<div class='type'>"@ + typ + "</div></div></div></label>"@
}

/// The control by which the metavariable `m` can be refined: its name, with a tooltip that has a
/// button for each variable that it can be assigned, its constraints and its type. Also gives the
/// next identifier.
pub open spec fn meta_text(h: Heap, m: MetaId, fuel: nat, next: u64) -> Result<
    (Seq<char>, u64),
    Fault,
>
    decreases fuel, 2nat, 0nat,
{
    if fuel == 0 {
        Err(Fault::Overflow)
    } else {
        match meta_name(h, m) {
            None => Err(Fault::Malformed),
            Some(name) => if h.assigned(m) {
                Err(Fault::Malformed)
            } else {
                match options_text(
                    h,
                    m,
                    variables(h.metas[m as int].gamma).len(),
                    (fuel - 1) as nat,
                    next,
                ) {
                    Err(f) => Err(f),
                    Ok((options, count, n)) => match reduced_text(
                        h,
                        codomain(h.metas[m as int].typ->0),
                        (fuel - 1) as nat,
                        n,
                    ) {
                        Err(f) => Err(f),
                        Ok((typ, n2)) => match constraints_text(
                            h,
                            h.metas[m as int].constraints,
                            h.metas[m as int].constraints.len(),
                            (fuel - 1) as nat,
                            n2,
                        ) {
                            Err(f) => Err(f),
                            Ok((inner, n3)) => Ok(
                                (
                                    control_text(
                                        decimal(m as nat),
                                        name,
                                        if count == 0 {
                                            "<div class='fail'>No Options</div>"@
                                        } else {
                                            options
                                        },
                                        if inner.len() == 0 {
                                            Seq::empty()
                                        } else {
                                            "<div class='constraints'>"@ + inner + "</div>"@
                                        },
                                        typ,
                                    ),
                                    n3,
                                ),
                            ),
                        },
                    },
                }
            },
        }
    }
}

/// Whether `g` is `h` with further binds.
pub open spec fn binds_added(h: Heap, g: Heap) -> bool {
    &&& g.metas == h.metas
    &&& g.binds.len() >= h.binds.len()
    &&& g.binds.take(h.binds.len() as int) == h.binds
}

pub proof fn lemma_added_trans(a: Heap, b: Heap, c: Heap)
    requires
        binds_added(a, b),
        binds_added(b, c),
    ensures
        binds_added(a, c),
{
    assert(c.binds.take(a.binds.len() as int) =~= c.binds.take(b.binds.len() as int).take(
        a.binds.len() as int,
    ));
}

pub proof fn lemma_renamed_added(h: Heap, bindings: Slots<BindId>, es: Seq<NodeView>)
    ensures
        binds_added(h, with_renamed(h, bindings, es, Polarity::Goal)),
{
    assert(with_renamed(h, bindings, es, Polarity::Goal).binds.take(h.binds.len() as int)
        =~= h.binds);
}

pub proof fn lemma_added_refl(h: Heap)
    ensures
        binds_added(h, h),
{
    assert(h.binds.take(h.binds.len() as int) =~= h.binds);
}

proof fn lemma_views_push(ts: Seq<IRTerm>, more: Seq<IRTerm>, k: nat)
    requires
        k <= ts.len() <= more.len(),
        forall|i: int| 0 <= i < ts.len() ==> #[trigger] more[i] == ts[i],
    ensures
        term_views(ts, k) == term_views(more, k),
    decreases k,
{
    if k > 0 {
        lemma_views_push(ts, more, (k - 1) as nat);
        assert(more[k - 1] == ts[k - 1]);
    }
}

proof fn lemma_read_fails(
    h: Heap,
    es: Seq<NodeView>,
    args: Seq<MetaId>,
    rules: bool,
    html: bool,
    k: nat,
    n: nat,
    fuel: nat,
    next: u64,
)
    requires
        k <= n <= args.len(),
        read_args(h, es, args, rules, html, k, fuel, next) is Err,
    ensures
        read_args(h, es, args, rules, html, n, fuel, next) == read_args(
            h,
            es,
            args,
            rules,
            html,
            k,
            fuel,
            next,
        ),
    decreases n - k,
{
    if k < n {
        lemma_read_fails(h, es, args, rules, html, k, (n - 1) as nat, fuel, next);
    }
}

/// The names of binds, as variables.
fn names_of(store: &Store, bs: &Vec<BindId>) -> (r: Vec<IRVar>)
    requires
        binds_present(store@, bs@),
    ensures
        var_names(r@) == bind_names(store@, bs@),
{
    let ghost all = bind_names(store@, bs@);
    let mut r: Vec<IRVar> = Vec::new();
    let mut i: usize = 0;
    assert(var_names(r@) =~= all.take(0));
    while i < bs.len()
        invariant
            i <= bs@.len(),
            binds_present(store@, bs@),
            all == bind_names(store@, bs@),
            var_names(r@) == all.take(i as int),
        decreases bs@.len() - i,
    {
        assert(bs@[i as int] < store@.binds.len());
        let ghost before = r@;
        let v = IRVar { name: store.bind(bs[i]).name.clone() };
        r.push(v);
        proof {
            assert(all.take(i + 1) =~= all.take(i as int).push(all[i as int]));
            assert(var_names(r@) =~= var_names(before).push(v.name@));
        }
        i = i + 1;
    }
    assert(all.take(i as int) =~= all);
    r
}

proof fn lemma_let_views_push(ls: Seq<IRLet>, more: Seq<IRLet>, k: nat)
    requires
        k <= ls.len() <= more.len(),
        forall|i: int| 0 <= i < ls.len() ==> #[trigger] more[i] == ls[i],
    ensures
        let_views(ls, k) == let_views(more, k),
    decreases k,
{
    if k > 0 {
        lemma_let_views_push(ls, more, (k - 1) as nat);
        assert(more[k - 1] == ls[k - 1]);
    }
}

/// The names of binds, as let declarations without rules.
fn lets_of(store: &Store, bs: &Vec<BindId>) -> (r: Vec<IRLet>)
    requires
        binds_present(store@, bs@),
    ensures
        let_views(r@, r@.len()) == bare_lets(store@, bs@),
{
    let ghost all = bare_lets(store@, bs@);
    let mut r: Vec<IRLet> = Vec::new();
    let mut i: usize = 0;
    assert(let_views(r@, 0) =~= all.take(0));
    while i < bs.len()
        invariant
            i <= bs@.len(),
            binds_present(store@, bs@),
            all == bare_lets(store@, bs@),
            r@.len() == i,
            let_views(r@, i as nat) == all.take(i as int),
        decreases bs@.len() - i,
    {
        assert(bs@[i as int] < store@.binds.len());
        let ghost before = r@;
        let d = IRLet { var: IRVar { name: store.bind(bs[i]).name.clone() }, rules: Vec::new() };
        r.push(d);
        proof {
            assert(all.take(i + 1) =~= all.take(i as int).push(all[i as int]));
            lemma_let_views_push(before, r@, i as nat);
            assert(let_view(d).rules =~= Seq::empty());
            assert(let_view(d) == all[i as int]);
        }
        i = i + 1;
    }
    assert(all.take(i as int) =~= all);
    r
}

/// The terms `args` in the context `es`, as written terms.
fn read_terms<const RULES: bool>(
    store: &mut Store,
    es: &ES,
    args: &Vec<MetaId>,
    html: bool,
    fuel: usize,
    ids: &mut Ids,
) -> (r: Result<Vec<IRTerm>, Fault>)
    ensures
        read_args(
            old(store)@,
            es@,
            args@,
            RULES,
            html,
            args@.len(),
            fuel as nat,
            old(ids).next,
        ) == match r {
            Ok(ts) => Ok::<(Heap, Seq<IRTermView>, u64), Fault>(
                (final(store)@, term_views(ts@, ts@.len()), final(ids).next),
            ),
            Err(f) => Err(f),
        },
        binds_added(old(store)@, final(store)@),
    decreases fuel, 2nat, 0nat,
{
    let ghost h = store@;
    proof {
        lemma_added_refl(h);
    }
    let mut ts: Vec<IRTerm> = Vec::new();
    let mut k: usize = 0;
    while k < args.len()
        invariant
            k <= args@.len(),
            h == old(store)@,
            binds_added(h, store@),
            ts@.len() == k,
            read_args(h, es@, args@, RULES, html, k as nat, fuel as nat, old(ids).next) == Ok::<
                (Heap, Seq<IRTermView>, u64),
                Fault,
            >((store@, term_views(ts@, k as nat), ids.next)),
        decreases args@.len() - k,
    {
        let ghost g = store@;
        let ghost before = ts@;
        match read_term::<RULES>(store, es, args[k], html, fuel, ids) {
            Err(f) => {
                proof {
                    lemma_added_trans(h, g, store@);
                    lemma_read_fails(
                        h,
                        es@,
                        args@,
                        RULES,
                        html,
                        (k + 1) as nat,
                        args@.len(),
                        fuel as nat,
                        old(ids).next,
                    );
                }
                return Err(f);
            },
            Ok(t) => {
                ts.push(t);
                proof {
                    lemma_added_trans(h, g, store@);
                    lemma_views_push(before, ts@, k as nat);
                }
            },
        }
        k = k + 1;
    }
    Ok(ts)
}

/// The term `m` in the context `es`, as a written term.
fn read_term<const RULES: bool>(
    store: &mut Store,
    es: &ES,
    m: MetaId,
    html: bool,
    fuel: usize,
    ids: &mut Ids,
) -> (r: Result<IRTerm, Fault>)
    ensures
        read_one(old(store)@, es@, m, RULES, html, fuel as nat, old(ids).next) == match r {
            Ok(t) => Ok::<(Heap, IRTermView, u64), Fault>(
                (final(store)@, term_view(t), final(ids).next),
            ),
            Err(f) => Err(f),
        },
        binds_added(old(store)@, final(store)@),
    decreases fuel, 1nat, 0nat,
{
    let ghost h = store@;
    proof {
        lemma_added_refl(h);
    }
    if !store.has_meta(m) {
        return Err(Fault::Malformed);
    }
    let old_bindings: Rc<Indexed<BindId>> = store.meta(m).bindings.clone();
    let bindings: Rc<Indexed<BindId>> = match disambiguate(
        store,
        &old_bindings,
        es,
        Polarity::Goal,
    ) {
        None => {
            return Err(Fault::Malformed);
        },
        Some(b) => b,
    };
    let ghost g = store@;
    proof {
        lemma_renamed_added(h, old_bindings@, es@);
    }
    if ids.next > u64::MAX - 2 * STRIDE {
        return Err(Fault::Exhausted);
    }
    let params_id: u64 = next_u64(ids);
    let entry = Entry::vars(params_id, ids);
    let mut owned_linked: Vec<Rc<Linked>> = Vec::new();
    let inner: ES = es.append(Node { entry, bindings: bindings.clone() }, &mut owned_linked);
    let r = IRTerm::from_lambda::<RULES>(
        store,
        &Term { base: m, es: inner },
        &bindings,
        html,
        fuel,
        ids,
    );
    proof {
        lemma_added_trans(h, g, store@);
    }
    r
}

impl IRTerm {
    /// The term with the variables `bindings` that it binds, as a written term.
    pub fn from_lambda<const RULES: bool>(
        store: &mut Store,
        term: &Term,
        bindings: &Indexed<BindId>,
        html: bool,
        fuel: usize,
        ids: &mut Ids,
    ) -> (r: Result<IRTerm, Fault>)
        ensures
            read_lambda(
                old(store)@,
                term@,
                bindings@,
                RULES,
                html,
                fuel as nat,
                old(ids).next,
            ) == match r {
                Ok(t) => Ok::<(Heap, IRTermView, u64), Fault>(
                    (final(store)@, term_view(t), final(ids).next),
                ),
                Err(f) => Err(f),
            },
            binds_added(old(store)@, final(store)@),
        decreases fuel, 0nat, 0nat,
    {
        let ghost h = store@;
        proof {
            lemma_added_refl(h);
        }
        if fuel == 0 {
            return Err(Fault::Overflow);
        }
        if !store.has_meta(term.base) || !crate::names::all_binds_present(
            store,
            &bindings.params,
        ) || !crate::names::all_binds_present(store, &bindings.lets) {
            return Err(Fault::Malformed);
        }
        let params: Vec<IRVar> = names_of(store, &bindings.params);
        let lets: Vec<IRLet> = lets_of(store, &bindings.lets);
        let goal_rules: Vec<String> = match get_rules(
            store,
            &store.meta(term.base).typ,
            fuel - 1,
            ids,
        ) {
            Err(f) => {
                return Err(f);
            },
            Ok(v) => v,
        };
        let mut owned_linked: Vec<Rc<Linked>> = Vec::new();
        assert(effects(*ids, owned_linked@, ()) == fresh(ids.next));
        let w: WHNF = match term.whnf::<RULES, ()>(
            store,
            fuel - 1,
            ids,
            &mut owned_linked,
            &mut (),
        ) {
            Err(f) => {
                return Err(f);
            },
            Ok(w) => w,
        };
        match IRSpine::from_body::<RULES>(store, w, html, fuel - 1, ids) {
            Err(f) => Err(f),
            Ok(spine) => Ok(IRTerm { params, lets, spine, goal_rules }),
        }
    }
}

impl IRSpine {
    /// A term in weak head normal form as a written spine.
    pub fn from_body<const RULES: bool>(
        store: &mut Store,
        w: WHNF,
        html: bool,
        fuel: usize,
        ids: &mut Ids,
    ) -> (r: Result<IRSpine, Fault>)
        ensures
            read_body(old(store)@, w@, RULES, html, fuel as nat, old(ids).next) == match r {
                Ok(s) => Ok::<(Heap, IRSpineView, u64), Fault>(
                    (final(store)@, spine_view(s), final(ids).next),
                ),
                Err(f) => Err(f),
            },
            binds_added(old(store)@, final(store)@),
        decreases fuel, 4nat, 0nat,
    {
        let ghost h = store@;
        proof {
            lemma_added_refl(h);
        }
        match w.1 {
            Head::Meta(meta) => {
                if html {
                    match IRSpine::meta_html(store, meta, fuel, ids) {
                        Err(f) => Err(f),
                        Ok(head) => {
                            let spine = IRSpine {
                                head,
                                args: Vec::new(),
                                premise_rules: Vec::new(),
                            };
                            assert(strings(spine.premise_rules@) =~= Seq::empty());
                            Ok(spine)
                        },
                    }
                } else {
                    IRSpine::from_meta::<RULES>(store, &w.0, meta, fuel, ids)
                }
            },
            Head::Var(var) => {
                if !store.has_meta(w.0.base) || !store.has_bind(var.bind) {
                    return Err(Fault::Malformed);
                }
                let (args, var_type): (Rc<Vec<MetaId>>, Option<Type>) = match &store.meta(
                    w.0.base,
                ).assignment {
                    None => {
                        return Err(Fault::Malformed);
                    },
                    Some(a) => (
                        a.args.clone(),
                        match &a.var_type {
                            None => None,
                            Some(t) => Some(t.clone()),
                        },
                    ),
                };
                let head: String = store.bind(var.bind).name.clone();
                match read_terms::<RULES>(store, &w.0.es, &args, html, fuel, ids) {
                    Err(f) => Err(f),
                    Ok(args) => match get_rules(store, &var_type, fuel, ids) {
                        Err(f) => Err(f),
                        Ok(premise_rules) => Ok(IRSpine { head, args, premise_rules }),
                    },
                }
            },
        }
    }

    /// A term that is stuck on a metavariable as a written spine.
    pub fn from_meta<const RULES: bool>(
        store: &mut Store,
        term: &Term,
        stuck: MetaId,
        fuel: usize,
        ids: &mut Ids,
    ) -> (r: Result<IRSpine, Fault>)
        ensures
            read_meta(old(store)@, term@, stuck, RULES, fuel as nat, old(ids).next) == match r {
                Ok(s) => Ok::<(Heap, IRSpineView, u64), Fault>(
                    (final(store)@, spine_view(s), final(ids).next),
                ),
                Err(f) => Err(f),
            },
            binds_added(old(store)@, final(store)@),
        decreases fuel, 3nat, 0nat,
    {
        let ghost h = store@;
        proof {
            lemma_added_refl(h);
        }
        let head: String = match name_of(store, stuck) {
            None => {
                return Err(Fault::Malformed);
            },
            Some(s) => s,
        };
        let premise_rules: Vec<String> = Vec::new();
        assert(strings(premise_rules@) =~= Seq::empty());
        if store.meta(stuck).bindings.params.len() == 0 {
            return Ok(IRSpine { head, args: Vec::new(), premise_rules });
        }
        match &term.es.linked {
            None => Err(Fault::Malformed),
            Some(l) => {
                assert(crate::data::nodes(term.es.linked)[0] == l.node@);
                match &l.node.entry.subst {
                    None => Ok(IRSpine { head, args: Vec::new(), premise_rules }),
                    Some(subst) => match read_terms::<RULES>(
                        store,
                        &subst.1,
                        &subst.0,
                        false,
                        fuel,
                        ids,
                    ) {
                        Err(f) => Err(f),
                        Ok(args) => Ok(IRSpine { head, args, premise_rules }),
                    },
                }
            },
        }
    }
}

/// What a metavariable is called.
fn name_of(store: &Store, meta: MetaId) -> (r: Option<String>)
    ensures
        match r {
            Some(s) => meta_name(store@, meta) == Some(s@),
            None => meta_name(store@, meta) is None,
        },
{
    if !store.has_meta(meta) {
        return None;
    }
    match &store.meta(meta).typ {
        None => None,
        Some(t) => {
            if !store.has_bind(t.2) {
                return None;
            }
            let mut s = String::from_str("?&NoBreak;");
            s.append(store.bind(t.2).name.as_str());
            Some(s)
        },
    }
}

/// The weak head normal form of a term as text.
fn reduced(store: &mut Store, term: &Term, fuel: usize, ids: &mut Ids) -> (r: Result<String, Fault>)
    ensures
        reduced_text(old(store)@, term@, fuel as nat, old(ids).next) == match r {
            Ok(s) => Ok::<(Seq<char>, u64), Fault>((s@, final(ids).next)),
            Err(f) => Err(f),
        },
        final(store)@ == old(store)@,
    decreases fuel, 5nat, 0nat,
{
    let ghost h = store@;
    let binds: usize = store.binds.len();
    assert(binds == h.binds.len());
    let mut owned_linked: Vec<Rc<Linked>> = Vec::new();
    assert(effects(*ids, owned_linked@, ()) == fresh(ids.next));
    let w: WHNF = match term.whnf::<true, ()>(store, fuel, ids, &mut owned_linked, &mut ()) {
        Err(f) => {
            return Err(f);
        },
        Ok(w) => w,
    };
    let read = IRSpine::from_body::<true>(store, w, false, fuel, ids);
    store.truncate_binds(binds);
    match read {
        Err(f) => Err(f),
        Ok(spine) => {
            Ok(spine.to_string())
        },
    }
}

/// Render a constraint stuck on a metavariable for the debug tooltip.
pub fn constraint_html(store: &mut Store, c: &Constraint, fuel: usize, ids: &mut Ids) -> (r: Result<
    String,
    Fault,
>)
    ensures
        constraint_text(old(store)@, c@, fuel as nat, old(ids).next) == match r {
            Ok(s) => Ok::<(Seq<char>, u64), Fault>((s@, final(ids).next)),
            Err(f) => Err(f),
        },
        final(store)@ == old(store)@,
    decreases fuel, 6nat, 0nat,
{
    let mut out = String::from_str("<div class='constraint'>");
    match c {
        Constraint::Equation(q) => {
            let lhs: String = match reduced(store, &q.premise, fuel, ids) {
                Err(f) => {
                    return Err(f);
                },
                Ok(s) => s,
            };
            let rhs: String = match reduced(store, &q.goal, fuel, ids) {
                Err(f) => {
                    return Err(f);
                },
                Ok(s) => s,
            };
            out.append(lhs.as_str());
            out.append(" ≡ ");
            out.append(rhs.as_str());
            out.append("</div>");
            Ok(out)
        },
        Constraint::Redex(r) => {
            let path: String = match path_of(store, &r.instructions, r.position) {
                None => {
                    return Err(Fault::Malformed);
                },
                Some(s) => s,
            };
            let mut out = String::from_str("<div class='constraint'>redex: ");
            out.append(path.as_str());
            out.append("</div>");
            Ok(out)
        },
    }
}

proof fn lemma_path_fails(
    h: Heap,
    instructions: Seq<crate::data::Instruction>,
    from: int,
    k: int,
    n: int,
)
    requires
        from <= k <= n,
        path_text(h, instructions, from, k) is None,
    ensures
        path_text(h, instructions, from, n) is None,
    decreases n - k,
{
    if k < n {
        lemma_path_fails(h, instructions, from, k, n - 1);
    }
}

/// The names of the binds of the instructions from `from` on, separated by arrows.
fn path_of(store: &Store, instructions: &Vec<crate::data::Instruction>, from: usize) -> (r: Option<
    String,
>)
    ensures
        path_text(store@, instructions@, from as int, instructions@.len() as int) == match r {
            Some(s) => Some(s@),
            None => None,
        },
{
    let mut out = String::new();
    assert(out@ =~= Seq::empty());
    let mut i: usize = from;
    while i < instructions.len()
        invariant
            from <= i,
            i <= instructions@.len() || i == from,
            path_text(store@, instructions@, from as int, i as int) == Some(out@),
        decreases instructions@.len() - i,
    {
        let b: BindId = instructions[i].bind;
        if !store.has_bind(b) {
            proof {
                lemma_path_fails(
                    store@,
                    instructions@,
                    from as int,
                    i + 1,
                    instructions@.len() as int,
                );
            }
            return None;
        }
        if i > from {
            out.append(" → ");
        } else {
            assert(out@ =~= Seq::empty());
        }
        let ghost before = out@;
        out.append(store.bind(b).name.as_str());
        assert(i == from ==> out@ =~= store@.binds[b as int].name);
        i = i + 1;
    }
    Some(out)
}

proof fn lemma_options_fail(h: Heap, m: MetaId, k: nat, n: nat, fuel: nat, next: u64)
    requires
        k <= n <= variables(h.metas[m as int].gamma).len(),
        options_text(h, m, k, fuel, next) is Err,
    ensures
        options_text(h, m, n, fuel, next) == options_text(h, m, k, fuel, next),
    decreases n - k,
{
    if k < n {
        lemma_options_fail(h, m, k, (n - 1) as nat, fuel, next);
    }
}

/// The button by which the metavariable `m` is assigned the variable `db`.
fn write_option(out: &mut String, m: MetaId, db: DeBruijnIndex, name: &String)
    ensures
        final(out)@ == old(out)@ + option_text(m, db, name@),
{
    let (index, def): (usize, &str) = match db.1 {
        Index::Param(i) => (i, "false"),
        Index::Let(i) => (i, "true"),
    };
    let mut s = String::from_str("<button class='option' onclick='assign(");
    append_decimal(&mut s, m as u64);
    s.append(", ");
    append_decimal(&mut s, db.0.0 as u64);
    s.append(", ");
    append_decimal(&mut s, index as u64);
    s.append(", ");
    s.append(def);
    s.append(")'>");
    s.append(name.as_str());
    s.append("</button>");
    out.append(s.as_str());
}

/// Trying a variable, and then dropping what was added, changes nothing.
pub proof fn lemma_tried_and_dropped(
    h: Heap,
    g: Heap,
    head: DeBruijnIndex,
    node: NodeView,
    m: MetaId,
    fuel: nat,
    next: u64,
)
    requires
        m < h.metas.len(),
        !h.assigned(m),
        h.metas.len() + crate::search::arity(node, head.1) <= usize::MAX,
        attempt(h, head, node, m, fuel, next) matches Ok((_, g2, _)) && g2 == g,
    ensures
        g.metas.len() >= h.metas.len(),
        (Heap { metas: g.metas.take(h.metas.len() as int), ..g }) == h,
{
    law_test_frame(h, head, node, m, fuel, next);
    assert(h.with_assignment(m, None).metas =~= h.metas);
    assert(h.metas.take(h.metas.len() as int) =~= h.metas);
}

/// The buttons for the variables that can be assigned to `meta`, and how many there are.
fn options_of(store: &mut Store, meta: MetaId, fuel: usize, ids: &mut Ids) -> (r: Result<
    (String, usize),
    Fault,
>)
    requires
        meta < old(store)@.metas.len(),
        !old(store)@.assigned(meta),
    ensures
        options_text(
            old(store)@,
            meta,
            variables(old(store)@.metas[meta as int].gamma).len(),
            fuel as nat,
            old(ids).next,
        ) == match r {
            Ok((s, n)) => Ok::<(Seq<char>, nat, u64), Fault>((s@, n as nat, final(ids).next)),
            Err(f) => Err(f),
        },
        final(store)@ == old(store)@,
{
    let ghost h = store@;
    let ghost es = h.metas[meta as int].gamma;
    let len: usize = store.metas.len();
    assert(len == h.metas.len());
    let gamma: ES = store.meta(meta).gamma.clone();
    let items = gamma.iter();
    let ghost proj = |x: (DeBruijnIndex, Rc<Linked>, crate::data::Var)| (x.0, x.2);
    assert(items@.map_values(proj) == variables(es));
    assert(items@.len() == variables(es).len());
    let mut out = String::new();
    assert(out@ =~= Seq::empty());
    let mut count: usize = 0;
    let mut k: usize = 0;
    while k < items.len()
        invariant
            k <= items@.len(),
            count <= k,
            h == old(store)@,
            store@ == h,
            len == h.metas.len(),
            meta < len,
            !h.assigned(meta),
            es == h.metas[meta as int].gamma,
            proj == (|x: (DeBruijnIndex, Rc<Linked>, crate::data::Var)| (x.0, x.2)),
            items@.map_values(proj) == variables(es),
            items@.len() == variables(es).len(),
            forall|j: int|
                0 <= j < items@.len() ==> crate::es::starts_at(
                    es,
                    (#[trigger] items@[j]).1,
                    depths(es)[j],
                ),
            options_text(h, meta, k as nat, fuel as nat, old(ids).next) == Ok::<
                (Seq<char>, nat, u64),
                Fault,
            >((out@, count as nat, ids.next)),
        decreases items@.len() - k,
    {
        let ghost next = ids.next;
        let db: DeBruijnIndex = items[k].0;
        proof {
            assert(variables(es)[k as int] == proj(items@[k as int]));
            assert(crate::es::starts_at(es, items@[k as int].1, depths(es)[k as int]));
            assert(crate::data::nodes(Some(items@[k as int].1))[0] == items@[k as int].1.node@);
            if options_text(h, meta, (k + 1) as nat, fuel as nat, old(ids).next) is Err {
                lemma_options_fail(
                    h,
                    meta,
                    (k + 1) as nat,
                    items@.len(),
                    fuel as nat,
                    old(ids).next,
                );
            }
        }
        match crate::search::test(store, db, &items[k].1, meta, fuel, ids) {
            Err(f) => {
                assert(store@.metas =~= h.metas);
                return Err(f);
            },
            Ok(o) => {
                proof {
                    lemma_tried_and_dropped(
                        h,
                        store@,
                        db,
                        items@[k as int].1.node@,
                        meta,
                        fuel as nat,
                        next,
                    );
                }
                store.truncate(len);
                if let Some(Some(c)) = o {
                    let b: BindId = c.assignment.bind;
                    if !store.has_bind(b) {
                        return Err(Fault::Malformed);
                    }
                    if count > 0 {
                        out.append("</br>");
                    } else {
                        out = String::new();
                        assert(out@ =~= Seq::empty());
                    }
                    let ghost before = out@;
                    let name: String = store.bind(b).name.clone();
                    write_option(&mut out, meta, db, &name);
                    proof {
                        let t = option_text(meta, db, name@);
                        assert(count == 0 ==> out@ =~= t);
                    }
                    count = count + 1;
                }
            },
        }
        k = k + 1;
    }
    Ok((out, count))
}

proof fn lemma_constraints_fail(
    h: Heap,
    cs: Seq<ConstraintView>,
    k: nat,
    n: nat,
    fuel: nat,
    next: u64,
)
    requires
        k <= n <= cs.len(),
        constraints_text(h, cs, k, fuel, next) is Err,
    ensures
        constraints_text(h, cs, n, fuel, next) == constraints_text(h, cs, k, fuel, next),
    decreases n - k,
{
    if k < n {
        lemma_constraints_fail(h, cs, k, (n - 1) as nat, fuel, next);
    }
}

/// The constraints for the tooltip of a metavariable.
fn constraints_of(store: &mut Store, meta: MetaId, fuel: usize, ids: &mut Ids) -> (r: Result<
    String,
    Fault,
>)
    requires
        meta < old(store)@.metas.len(),
    ensures
        constraints_text(
            old(store)@,
            old(store)@.metas[meta as int].constraints,
            old(store)@.metas[meta as int].constraints.len(),
            fuel as nat,
            old(ids).next,
        ) == match r {
            Ok(s) => Ok::<(Seq<char>, u64), Fault>((s@, final(ids).next)),
            Err(f) => Err(f),
        },
        final(store)@ == old(store)@,
    decreases fuel, 7nat, 0nat,
{
    let ghost h = store@;
    let ghost cs = h.metas[meta as int].constraints;
    let n: usize = store.meta(meta).constraints.len();
    let mut out = String::new();
    assert(out@ =~= Seq::empty());
    let mut k: usize = 0;
    while k < n
        invariant
            k <= n,
            h == old(store)@,
            store@ == h,
            meta < h.metas.len(),
            cs == h.metas[meta as int].constraints,
            n == cs.len(),
            constraints_text(h, cs, k as nat, fuel as nat, old(ids).next) == Ok::<
                (Seq<char>, u64),
                Fault,
            >((out@, ids.next)),
        decreases n - k,
    {
        let c: Constraint = store.meta(meta).constraints[k].clone();
        assert(c@ == cs[k as int]);
        match constraint_html(store, &c, fuel, ids) {
            Err(f) => {
                proof {
                    lemma_constraints_fail(
                        h,
                        cs,
                        (k + 1) as nat,
                        n as nat,
                        fuel as nat,
                        old(ids).next,
                    );
                }
                return Err(f);
            },
            Ok(s) => {
                out.append(s.as_str());
            },
        }
        k = k + 1;
    }
    Ok(out)
}

/// The control for a metavariable, from its parts.
fn control(id: u64, name: &String, options: &str, constraints: &str, typ: &String) -> (r: String)
    ensures
        r@ == control_text(decimal(id as nat), name@, options@, constraints@, typ@),
{
    let mut s = String::from_str("<label><input type='radio' name='meta' id='");
    append_decimal(&mut s, id);
    s.append("' value='");
    append_decimal(&mut s, id);
    s.append("'><div class='tooltip'><span class='meta'>");
    s.append(name.as_str());
    s.append("</span><div class='tooltiptext'><div class='provers'>");
    s.append(options);
    s.append("</div>");
    s.append(constraints);
    s.append("<div class='type'>");
    s.append(typ.as_str());
    s.append("</div></div></div></label>");
    s
}

impl IRSpine {
    /// The control by which the metavariable can be refined.
    pub fn meta_html(store: &mut Store, meta: MetaId, fuel: usize, ids: &mut Ids) -> (r: Result<
        String,
        Fault,
    >)
        ensures
            meta_text(old(store)@, meta, fuel as nat, old(ids).next) == match r {
                Ok(s) => Ok::<(Seq<char>, u64), Fault>((s@, final(ids).next)),
                Err(f) => Err(f),
            },
            final(store)@ == old(store)@,
        decreases fuel, 2nat, 0nat,
    {
        let ghost h = store@;
        if fuel == 0 {
            return Err(Fault::Overflow);
        }
        let name: String = match name_of(store, meta) {
            None => {
                return Err(Fault::Malformed);
            },
            Some(s) => s,
        };
        if store.meta(meta).assignment.is_some() {
            return Err(Fault::Malformed);
        }
        let (options, count): (String, usize) = match options_of(store, meta, fuel - 1, ids) {
            Err(f) => {
                return Err(f);
            },
            Ok(x) => x,
        };
        let codomain: Term = match &store.meta(meta).typ {
            None => {
                return Err(Fault::Malformed);
            },
            Some(t) => t.codomain(),
        };
        let typ: String = match reduced(store, &codomain, fuel - 1, ids) {
            Err(f) => {
                return Err(f);
            },
            Ok(s) => s,
        };
        let inner: String = match constraints_of(store, meta, fuel - 1, ids) {
            Err(f) => {
                return Err(f);
            },
            Ok(s) => s,
        };
        let mut constraints = String::new();
        assert(constraints@ =~= Seq::empty());
        if inner.as_str().unicode_len() > 0 {
            constraints.append("<div class='constraints'>");
            constraints.append(inner.as_str());
            constraints.append("</div>");
            assert(constraints@ =~= "<div class='constraints'>"@ + inner@ + "</div>"@);
        }
        let fail = "<div class='fail'>No Options</div>";
        let shown: &str = if count == 0 {
            fail
        } else {
            options.as_str()
        };
        Ok(control(meta as u64, &name, shown, constraints.as_str(), &typ))
    }
}

impl IRTerm {
    /// The term with the variables `bindings` that it binds, as a written term. The store is left
    /// as it was.
    pub fn read<const RULES: bool>(
        store: &mut Store,
        term: &Term,
        bindings: &Indexed<BindId>,
        html: bool,
        fuel: usize,
        ids: &mut Ids,
    ) -> (r: Result<IRTerm, Fault>)
        ensures
            match r {
                Ok(t) => read_lambda(
                    old(store)@,
                    term@,
                    bindings@,
                    RULES,
                    html,
                    fuel as nat,
                    old(ids).next,
                ) matches Ok((_, v, n)) && v == term_view(t) && n == final(ids).next,
                Err(f) => read_lambda(
                    old(store)@,
                    term@,
                    bindings@,
                    RULES,
                    html,
                    fuel as nat,
                    old(ids).next,
                ) == Err::<(Heap, IRTermView, u64), Fault>(f),
            },
            final(store)@ == old(store)@,
    {
        let binds: usize = store.binds.len();
        assert(binds == store@.binds.len());
        let r = IRTerm::from_lambda::<RULES>(store, term, bindings, html, fuel, ids);
        store.truncate_binds(binds);
        r
    }
}

} // verus!
