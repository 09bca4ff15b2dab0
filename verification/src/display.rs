//! What is shown of a metavariable that can be refined.
use crate::choices::{buttons, law_buttons};
use crate::data::{ConstraintView, Instruction, MetaId};
use crate::equality::any;
use crate::es::variables;
use crate::ids::Fault;
use crate::index::DeBruijnIndex;
use crate::memory::Heap;
use crate::readback::{
    constraint_text, constraints_text, meta_text, options_text, path_text, reduced_text,
};
use crate::refine::options;
use crate::text::decimal;
use crate::types::codomain;
use vstd::prelude::*;

verus! {

/// Whether `text` is the names of the binds, from left to right, with an arrow between each two.
pub open spec fn arrows(h: Heap, path: Seq<Instruction>, text: Seq<char>) -> bool
    decreases path.len(),
{
    if path.len() == 0 {
        text.len() == 0
    } else {
        &&& path[0].bind < h.binds.len()
        &&& if path.len() == 1 {
            text == h.binds[path[0].bind as int].name
        } else {
            exists|rest: Seq<char>| #[trigger]
                any(rest) && arrows(h, path.skip(1), rest) && text
                    == h.binds[path[0].bind as int].name + " → "@ + rest
        }
    }
}

proof fn lemma_arrows_push(h: Heap, path: Seq<Instruction>, text: Seq<char>, last: Instruction)
    requires
        arrows(h, path, text),
        path.len() > 0,
        last.bind < h.binds.len(),
    ensures
        arrows(h, path.push(last), text + " → "@ + h.binds[last.bind as int].name),
    decreases path.len(),
{
    let all = path.push(last);
    let name = h.binds[last.bind as int].name;
    let first = h.binds[path[0].bind as int].name;
    assert(all[0] == path[0]);
    if path.len() == 1 {
        assert(all.skip(1) =~= seq![last]);
        assert(arrows(h, seq![last], name));
        assert(any(name));
    } else {
        let rest = choose|rest: Seq<char>| #[trigger]
            any(rest) && arrows(h, path.skip(1), rest) && text == first + " → "@ + rest;
        lemma_arrows_push(h, path.skip(1), rest, last);
        let longer = rest + " → "@ + name;
        assert(path.skip(1).push(last) =~= all.skip(1));
        assert(text + " → "@ + name =~= first + " → "@ + longer);
        assert(any(longer));
    }
}

/// A path is shown as the names along it, from where it is looked at to its end.
pub proof fn law_path_shown(h: Heap, path: Seq<Instruction>, from: int, k: int)
    requires
        0 <= from <= k <= path.len(),
    ensures
        path_text(h, path, from, k) matches Some(text) ==> arrows(h, path.subrange(from, k), text),
    decreases k - from,
{
    if from < k {
        law_path_shown(h, path, from, k - 1);
        if let Some(text) = path_text(h, path, from, k) {
            let before = path_text(h, path, from, k - 1)->0;
            let short = path.subrange(from, k - 1);
            assert(path.subrange(from, k) =~= short.push(path[k - 1]));
            if k - 1 > from {
                lemma_arrows_push(h, short, before, path[k - 1]);
            } else {
                assert(short.push(path[k - 1]).len() == 1);
                assert(short.push(path[k - 1])[0] == path[k - 1]);
            }
        }
    }
}

/// Whether `text` shows the constraint `c`: an equation with what its premise reduces to on the
/// left and what its goal reduces to on the right, and a redex with the part of its path that is
/// yet to be met.
pub open spec fn shows(h: Heap, c: ConstraintView, fuel: nat, text: Seq<char>) -> bool {
    match c {
        ConstraintView::Equation(q) => exists|l: Seq<char>, r: Seq<char>, i: u64, j: u64, k: u64|
         #[trigger]
            any((l, r, i, j, k)) && reduced_text(h, q.premise, fuel, i) == Ok::<_, Fault>((l, j))
                && reduced_text(h, q.goal, fuel, j) == Ok::<_, Fault>((r, k)) && text
                == "<div class='constraint'>"@ + l + " ≡ "@ + r + "</div>"@,
        ConstraintView::Redex(r) => exists|p: Seq<char>| #[trigger]
            arrows(
                h,
                r.instructions.subrange(r.position as int, r.instructions.len() as int),
                p,
            ) && text == "<div class='constraint'>redex: "@ + p + "</div>"@,
    }
}

/// Whether `text` is the texts `parts`, one after the other.
pub open spec fn strung(parts: Seq<Seq<char>>, text: Seq<char>) -> bool {
    text == parts.flatten()
}

/// Whether `parts` show the constraints `cs`, one for each.
pub open spec fn shows_each(
    h: Heap,
    cs: Seq<ConstraintView>,
    fuel: nat,
    parts: Seq<Seq<char>>,
) -> bool {
    &&& parts.len() == cs.len()
    &&& forall|i: int| 0 <= i < cs.len() ==> shows(h, cs[i], fuel, #[trigger] parts[i])
}

proof fn lemma_constraint_shown(h: Heap, c: ConstraintView, fuel: nat, next: u64)
    requires
        c matches ConstraintView::Redex(r) ==> r.position <= r.instructions.len(),
    ensures
        constraint_text(h, c, fuel, next) matches Ok((text, _)) ==> shows(h, c, fuel, text),
{
    if let Ok((text, k)) = constraint_text(h, c, fuel, next) {
        match c {
            ConstraintView::Equation(q) => {
                let (l, j) = reduced_text(h, q.premise, fuel, next)->Ok_0;
                let (r, _) = reduced_text(h, q.goal, fuel, j)->Ok_0;
                assert(any((l, r, next, j, k)));
            },
            ConstraintView::Redex(r) => {
                law_path_shown(h, r.instructions, r.position as int, r.instructions.len() as int);
            },
        }
    }
}

/// Whether the redexes among the constraints are looked at within their paths.
pub open spec fn positioned(cs: Seq<ConstraintView>) -> bool {
    forall|i: int|
        0 <= i < cs.len() ==> (#[trigger] cs[i] matches ConstraintView::Redex(r) ==> r.position
            <= r.instructions.len())
}

/// All constraints are shown, in order.
pub proof fn law_constraints_shown(
    h: Heap,
    cs: Seq<ConstraintView>,
    k: nat,
    fuel: nat,
    next: u64,
)
    requires
        positioned(cs),
        k <= cs.len(),
    ensures
        constraints_text(h, cs, k, fuel, next) matches Ok((text, _)) ==> exists|
            parts: Seq<Seq<char>>,
        | #[trigger]
            shows_each(h, cs.take(k as int), fuel, parts) && strung(parts, text),
    decreases k,
{
    if let Ok((text, _)) = constraints_text(h, cs, k, fuel, next) {
        if k == 0 {
            let none = Seq::<Seq<char>>::empty();
            assert(shows_each(h, cs.take(0), fuel, none));
        } else {
            let l = (k - 1) as nat;
            law_constraints_shown(h, cs, l, fuel, next);
            let (before, n) = constraints_text(h, cs, l, fuel, next)->Ok_0;
            let parts = choose|parts: Seq<Seq<char>>| #[trigger]
                shows_each(h, cs.take(l as int), fuel, parts) && strung(parts, before);
            let (last, _) = constraint_text(h, cs[l as int], fuel, n)->Ok_0;
            lemma_constraint_shown(h, cs[l as int], fuel, n);
            let all = parts.push(last);
            parts.lemma_flatten_push(last);
            assert forall|i: int| 0 <= i < k implies shows(
                h,
                cs.take(k as int)[i],
                fuel,
                #[trigger] all[i],
            ) by {
                if i < l {
                    assert(all[i] == parts[i]);
                    assert(cs.take(l as int)[i] == cs[i]);
                }
            }
            assert(shows_each(h, cs.take(k as int), fuel, all));
        }
    }
}

/// What is shown of a metavariable: its name, what it can be assigned, its constraints, and its
/// type.
pub struct Shown {
    pub dbs: Seq<DeBruijnIndex>,
    pub names: Seq<Seq<char>>,
    pub provers: Seq<char>,
    pub parts: Seq<Seq<char>>,
    pub typ: Seq<char>,
}

/// Whether `x` is what is to be shown of `m`: a button for each variable that it can be assigned,
/// or a remark if there is none, all of its constraints, and what its type reduces to.
pub open spec fn to_show(h: Heap, m: MetaId, fuel: nat, x: Shown) -> bool {
    &&& exists|i: u64, j: u64| #[trigger]
        any((i, j)) && options(h, m, variables(h.metas[m as int].gamma).len(), fuel, i) == Ok::<
            _,
            Fault,
        >((x.dbs, j))
    &&& if x.dbs.len() == 0 {
        x.provers == "<div class='fail'>No Options</div>"@
    } else {
        buttons(m, x.dbs, x.names, x.provers)
    }
    &&& shows_each(h, h.metas[m as int].constraints, fuel, x.parts)
    &&& exists|i: u64, j: u64| #[trigger]
        any((i, j)) && reduced_text(h, codomain(h.metas[m as int].typ->0), fuel, i) == Ok::<
            _,
            Fault,
        >((x.typ, j))
}

/// What `m` is shown as: the constraints stand in a part of their own, if there are any.
pub open spec fn shown_as(h: Heap, m: MetaId, x: Shown) -> Seq<char> {
    let id = decimal(m as nat);
    let inner = x.parts.flatten();
    "<label><input type='radio' name='meta' id='"@ + id + "' value='"@ + id
        + "'><div class='tooltip'><span class='meta'>"@ + ("?&NoBreak;"@
        + h.binds[h.metas[m as int].typ->0.bind as int].name)
        + "</span><div class='tooltiptext'><div class='provers'>"@ + x.provers + "</div>"@ + (
    if inner.len() == 0 {
        Seq::<char>::empty()
    } else {
        "<div class='constraints'>"@ + inner + "</div>"@
    }) + "<div class='type'>"@ + x.typ + "</div></div></div></label>"@
}

/// A metavariable that can be refined is shown with its name, a button for each variable that can
/// be assigned to it, all of its constraints, and its type.
pub proof fn law_meta_shown(h: Heap, m: MetaId, fuel: nat, next: u64)
    requires
        fuel > 0,
        positioned(h.metas[m as int].constraints),
    ensures
        meta_text(h, m, fuel, next) matches Ok((text, _)) ==> {
            &&& !h.assigned(m)
            &&& exists|x: Shown| #[trigger]
                to_show(h, m, (fuel - 1) as nat, x) && text == shown_as(h, m, x)
        },
{
    if let Ok((text, _)) = meta_text(h, m, fuel, next) {
        let less = (fuel - 1) as nat;
        let all = variables(h.metas[m as int].gamma).len();
        let cs = h.metas[m as int].constraints;
        law_buttons(h, m, all, less, next);
        let (buttons_text, count, n) = options_text(h, m, all, less, next)->Ok_0;
        let (dbs, names) = choose|dbs: Seq<DeBruijnIndex>, names: Seq<Seq<char>>|
            options(h, m, all, less, next) == Ok::<_, Fault>((dbs, n)) && dbs.len() == count
                && #[trigger] buttons(m, dbs, names, buttons_text);
        let (typ, n2) = reduced_text(h, codomain(h.metas[m as int].typ->0), less, n)->Ok_0;
        law_constraints_shown(h, cs, cs.len(), less, n2);
        let (inner, _) = constraints_text(h, cs, cs.len(), less, n2)->Ok_0;
        assert(cs.take(cs.len() as int) =~= cs);
        let parts = choose|parts: Seq<Seq<char>>| #[trigger]
            shows_each(h, cs, less, parts) && strung(parts, inner);
        let provers = if count == 0 {
            "<div class='fail'>No Options</div>"@
        } else {
            buttons_text
        };
        let x = Shown { dbs, names, provers, parts, typ };
        assert(any((next, n)));
        assert(any((n, n2)));
        assert(to_show(h, m, less, x));
        assert(text == shown_as(h, m, x));
    }
}

} // verus!
