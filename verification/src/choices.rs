//! Which variables are tried for a metavariable, and which of them are found possible.
use crate::equality::any;
use crate::data::{MetaId, MetaView, NodeView, Var};
use crate::es::{
    depths, depths_from, first_named, level, level_vars, named, var_at, variables, vars_from,
};
use crate::frames::{populated, tried, with_rigid, FrameView};
use crate::ids::Fault;
use crate::index::{DeBruijn, DeBruijnIndex, Index};
use crate::memory::Heap;
use crate::readback::{option_text, options_text};
use crate::refine::{forced, options};
use crate::search::{attempt, CandidateView};
use crate::text::decimal;
use vstd::prelude::*;

verus! {

/// Whether there is a variable `db` in `es`.
pub open spec fn variable_in(es: Seq<NodeView>, db: DeBruijnIndex) -> bool {
    &&& db.0.0 < es.len()
    &&& match db.1 {
        Index::Param(i) => i < es[db.0.0 as int].bindings.params.len(),
        Index::Let(i) => i < es[db.0.0 as int].bindings.lets.len(),
    }
}

/// Whether the variable `a` comes before `b`: that of an inner level before that of an outer one,
/// a parameter before a let declaration, and of two parameters or two let declarations the later
/// one.
pub open spec fn comes_before(a: DeBruijnIndex, b: DeBruijnIndex) -> bool {
    a.0.0 < b.0.0 || (a.0.0 == b.0.0 && match (a.1, b.1) {
        (Index::Param(_), Index::Let(_)) => true,
        (Index::Param(i), Index::Param(j)) => i > j,
        (Index::Let(i), Index::Let(j)) => i > j,
        (Index::Let(_), Index::Param(_)) => false,
    })
}

/// Whether `order` lists all variables of `es`, parameters and let declarations, each once, in the
/// order in which they are tried.
pub open spec fn enumerates(es: Seq<NodeView>, order: Seq<DeBruijnIndex>) -> bool {
    &&& forall|k: int| 0 <= k < order.len() ==> variable_in(es, #[trigger] order[k])
    &&& forall|db: DeBruijnIndex| #[trigger] variable_in(es, db) ==> order.contains(db)
    &&& forall|j: int, k: int|
        0 <= j < k < order.len() ==> comes_before(#[trigger] order[j], #[trigger] order[k])
}

/// Whether the levels of `es` can be numbered, and the variables of each.
pub open spec fn countable(es: Seq<NodeView>) -> bool {
    &&& es.len() <= 0x1_0000_0000
    &&& forall|k: int|
        0 <= k < es.len() ==> (#[trigger] es[k]).bindings.params.len() <= usize::MAX
            && es[k].bindings.lets.len() <= usize::MAX
}

/// The positions of variables.
pub open spec fn places(vars: Seq<(DeBruijnIndex, Var)>) -> Seq<DeBruijnIndex> {
    vars.map_values(|v: (DeBruijnIndex, Var)| v.0)
}

/// What is said of a variable: the identifier of its entry, its index and its bind.
pub open spec fn told(es: Seq<NodeView>, db: DeBruijnIndex) -> Var {
    let node = es[db.0.0 as int];
    match db.1 {
        Index::Param(i) => Var {
            entry_id: node.entry.params_id,
            index: db.1,
            bind: node.bindings.params[i as int],
        },
        Index::Let(i) => Var {
            entry_id: node.entry.lets_id,
            index: db.1,
            bind: node.bindings.lets[i as int],
        },
    }
}

proof fn lemma_vars_from(es: Seq<NodeView>, k: int)
    requires
        countable(es),
        0 <= k <= es.len(),
    ensures
        ({
            let vars = vars_from(es, k);
            &&& depths_from(es, k).len() == vars.len()
            &&& forall|j: int|
                0 <= j < vars.len() ==> {
                    let v = #[trigger] vars[j];
                    &&& variable_in(es, v.0)
                    &&& k <= v.0.0.0
                    &&& depths_from(es, k)[j] == v.0.0.0
                    &&& v.1 == told(es, v.0)
                }
            &&& forall|db: DeBruijnIndex| #[trigger]
                variable_in(es, db) && k <= db.0.0 ==> places(vars).contains(db)
            &&& forall|i: int, j: int|
                0 <= i < j < vars.len() ==> comes_before(
                    (#[trigger] vars[i]).0,
                    (#[trigger] vars[j]).0,
                )
        }),
    decreases es.len() - k,
{
    if k < es.len() {
        lemma_vars_from(es, k + 1);
        let here = level_vars(es, k);
        let rest = vars_from(es, k + 1);
        let vars = vars_from(es, k);
        let node = es[k];
        let n = node.bindings.params.len();
        let m = node.bindings.lets.len();
        assert(vars == here + rest);
        assert(here.len() == n + m);
        assert(level(k) == DeBruijn(k as u32));
        assert forall|j: int| 0 <= j < here.len() implies (#[trigger] here[j]) == (
            DeBruijnIndex(DeBruijn(k as u32), node.bindings.nth(j)),
            var_at(node, node.bindings.nth(j)),
        ) by {
            assert(node.bindings.order()[j] == node.bindings.nth(j));
        }
        assert forall|j: int| 0 <= j < vars.len() implies ({
            let v = #[trigger] vars[j];
            &&& variable_in(es, v.0)
            &&& k <= v.0.0.0
            &&& depths_from(es, k)[j] == v.0.0.0
            &&& v.1 == told(es, v.0)
        }) by {
            if j < here.len() {
                assert(vars[j] == here[j]);
            } else {
                assert(vars[j] == rest[j - here.len()]);
                assert(depths_from(es, k)[j] == depths_from(es, k + 1)[j - here.len()]);
            }
        }
        assert forall|db: DeBruijnIndex| #[trigger]
            variable_in(es, db) && k <= db.0.0 implies places(vars).contains(db) by {
            if db.0.0 == k {
                let j: int = match db.1 {
                    Index::Param(i) => n - 1 - i,
                    Index::Let(i) => n + m - 1 - i,
                };
                assert(here[j].0 == db);
                assert(places(vars)[j] == db);
            } else {
                assert(places(rest).contains(db));
                let j = choose|j: int| 0 <= j < places(rest).len() && places(rest)[j] == db;
                assert(places(vars)[here.len() + j] == db);
            }
        }
        assert forall|i: int, j: int| 0 <= i < j < vars.len() implies comes_before(
            (#[trigger] vars[i]).0,
            (#[trigger] vars[j]).0,
        ) by {
            if i >= here.len() {
                assert(vars[i] == rest[i - here.len()]);
                assert(vars[j] == rest[j - here.len()]);
            } else {
                assert(vars[i] == here[i]);
                if j < here.len() {
                    assert(vars[j] == here[j]);
                } else {
                    assert(vars[j] == rest[j - here.len()]);
                }
            }
        }
    }
}

/// The variables of a context are all its parameters and let declarations, each once, in the order
/// in which they are tried, and each is told by its place.
pub proof fn law_variables_enumerated(es: Seq<NodeView>)
    requires
        countable(es),
    ensures
        enumerates(es, places(variables(es))),
        depths(es).len() == variables(es).len(),
        forall|k: int|
            0 <= k < variables(es).len() ==> (#[trigger] variables(es)[k]).1 == told(
                es,
                variables(es)[k].0,
            ) && depths(es)[k] == variables(es)[k].0.0.0,
{
    lemma_vars_from(es, 0);
    let vars = variables(es);
    let order = places(vars);
    assert forall|k: int| 0 <= k < order.len() implies variable_in(es, #[trigger] order[k]) by {
        assert(variable_in(es, vars[k].0));
    }
    assert forall|j: int, k: int| 0 <= j < k < order.len() implies comes_before(
        #[trigger] order[j],
        #[trigger] order[k],
    ) by {
        assert(comes_before(vars[j].0, vars[k].0));
    }
}

/// What testing a variable came to: no type is known for it, it violates a constraint, or it can
/// be assigned.
pub type Outcome = Option<Option<CandidateView>>;

/// Whether testing the variables of `order` one after the other, each in the state that the one
/// before has left, comes to `outcomes`.
pub open spec fn tests(
    es: Seq<NodeView>,
    m: MetaId,
    fuel: nat,
    order: Seq<DeBruijnIndex>,
    states: Seq<(Heap, u64)>,
    outcomes: Seq<Outcome>,
) -> bool {
    &&& states.len() == order.len() + 1
    &&& outcomes.len() == order.len()
    &&& forall|k: int|
        0 <= k < order.len() ==> attempt(
            states[k].0,
            #[trigger] order[k],
            es[order[k].0.0 as int],
            m,
            fuel,
            states[k].1,
        ) == Ok::<(Outcome, Heap, u64), Fault>((outcomes[k], states[k + 1].0, states[k + 1].1))
}

/// Whether `found` holds the candidates among the outcomes, in order: `at` tells where each comes
/// from.
pub open spec fn collects(
    order: Seq<DeBruijnIndex>,
    outcomes: Seq<Outcome>,
    found: Seq<CandidateView>,
    at: Seq<int>,
) -> bool {
    &&& at.len() == found.len()
    &&& forall|j: int|
        0 <= j < at.len() ==> 0 <= #[trigger] at[j] < outcomes.len() && outcomes[at[j]] == Some(
            Some(found[j]),
        ) && found[j].assignment.head == order[at[j]]
    &&& forall|i: int, j: int| 0 <= i < j < at.len() ==> #[trigger] at[i] < #[trigger] at[j]
    &&& forall|k: int|
        0 <= k < outcomes.len() && (#[trigger] outcomes[k] matches Some(Some(_))) ==> at.contains(k)
}

proof fn lemma_attempt_head(
    h: Heap,
    head: DeBruijnIndex,
    node: NodeView,
    m: MetaId,
    fuel: nat,
    next: u64,
)
    ensures
        attempt(h, head, node, m, fuel, next) matches Ok((Some(Some(c)), _, _))
            ==> c.assignment.head == head,
{
    reveal(attempt);
}

/// The trace of testing the first `k` variables.
spec fn traced(
    h: Heap,
    m: MetaId,
    k: int,
    fuel: nat,
    next: u64,
    states: Seq<(Heap, u64)>,
    outcomes: Seq<Outcome>,
    at: Seq<int>,
) -> bool {
    let es = h.metas[m as int].gamma;
    let order = places(variables(es)).take(k);
    &&& tests(es, m, fuel, order, states, outcomes)
    &&& states[0] == (h, next)
    &&& tried(h, m, k, fuel, next) matches Ok((s, g, n)) && states.last() == (g, n) && collects(
        order,
        outcomes,
        s,
        at,
    )
}

proof fn lemma_tried_traced(h: Heap, m: MetaId, k: int, fuel: nat, next: u64)
    requires
        countable(h.metas[m as int].gamma),
        0 <= k <= variables(h.metas[m as int].gamma).len(),
        tried(h, m, k, fuel, next) is Ok,
    ensures
        exists|states: Seq<(Heap, u64)>, outcomes: Seq<Outcome>, at: Seq<int>| #[trigger]
            traced(h, m, k, fuel, next, states, outcomes, at),
    decreases k,
{
    let es = h.metas[m as int].gamma;
    let vars = variables(es);
    let all = places(vars);
    law_variables_enumerated(es);
    if k == 0 {
        let states = seq![(h, next)];
        let outcomes = Seq::<Outcome>::empty();
        let at = Seq::<int>::empty();
        assert(traced(h, m, k, fuel, next, states, outcomes, at));
    } else {
        lemma_tried_traced(h, m, k - 1, fuel, next);
        let (states, outcomes, at) = choose|
            states: Seq<(Heap, u64)>,
            outcomes: Seq<Outcome>,
            at: Seq<int>,
        | #[trigger]
            traced(h, m, k - 1, fuel, next, states, outcomes, at);
        let (s, g, n) = tried(h, m, k - 1, fuel, next)->Ok_0;
        let db = vars[k - 1].0;
        assert(all[k - 1] == db);
        assert(depths(es)[k - 1] == db.0.0);
        let (o, g2, n2) = attempt(g, db, es[db.0.0 as int], m, fuel, n)->Ok_0;
        lemma_attempt_head(g, db, es[db.0.0 as int], m, fuel, n);
        let (s2, _, _) = tried(h, m, k, fuel, next)->Ok_0;
        let states2 = states.push((g2, n2));
        let outcomes2 = outcomes.push(o);
        let at2 = if o matches Some(Some(_)) {
            at.push(k - 1)
        } else {
            at
        };
        let (before, order) = (all.take(k - 1), all.take(k));
        assert forall|j: int| 0 <= j < order.len() implies attempt(
            states2[j].0,
            #[trigger] order[j],
            es[order[j].0.0 as int],
            m,
            fuel,
            states2[j].1,
        ) == Ok::<(Outcome, Heap, u64), Fault>(
            (outcomes2[j], states2[j + 1].0, states2[j + 1].1),
        ) by {
            if j < k - 1 {
                assert(order[j] == before[j]);
            }
        }
        assert forall|j: int| 0 <= j < at2.len() implies 0 <= #[trigger] at2[j] < outcomes2.len()
            && outcomes2[at2[j]] == Some(Some(s2[j])) && s2[j].assignment.head
            == order[at2[j]] by {
            if j < at.len() {
                assert(at2[j] == at[j]);
                assert(before[at[j]] == order[at[j]]);
            }
        }
        assert forall|i: int, j: int| 0 <= i < j < at2.len() implies #[trigger] at2[i]
            < #[trigger] at2[j] by {
            assert(at2[i] == at[i]);
            if j < at.len() {
                assert(at2[j] == at[j]);
            }
        }
        assert forall|q: int|
            0 <= q < outcomes2.len() && (#[trigger] outcomes2[q] matches Some(
                Some(_),
            )) implies at2.contains(q) by {
            if q < k - 1 {
                assert(outcomes[q] == outcomes2[q]);
                let j = choose|j: int| 0 <= j < at.len() && at[j] == q;
                assert(at2[j] == q);
            } else {
                assert(at2[at.len() as int] == q);
            }
        }
        assert(collects(order, outcomes2, s2, at2));
        assert(traced(h, m, k, fuel, next, states2, outcomes2, at2));
    }
}

/// Whether `found` holds a candidate for each variable of the context of `m` that can be assigned
/// to it, and no other, in the order in which the variables are tried. The tests begin in the state
/// `start` and end in the state `end`.
pub open spec fn exhausts(
    es: Seq<NodeView>,
    m: MetaId,
    fuel: nat,
    start: (Heap, u64),
    end: (Heap, u64),
    found: Seq<CandidateView>,
) -> bool {
    exists|
        order: Seq<DeBruijnIndex>,
        states: Seq<(Heap, u64)>,
        outcomes: Seq<Outcome>,
        at: Seq<int>,
    |
        #![trigger tests(es, m, fuel, order, states, outcomes), collects(order, outcomes, found, at)]
        enumerates(es, order) && tests(es, m, fuel, order, states, outcomes) && states[0] == start
            && states.last() == end && collects(order, outcomes, found, at)
}

/// The candidates for a metavariable are exhaustive: every variable of its context, parameter or
/// let declaration, is tested, and those and only those that can be assigned are there, in order.
pub proof fn law_candidates_exhaust(h: Heap, m: MetaId, fuel: nat, next: u64)
    requires
        countable(h.metas[m as int].gamma),
    ensures
        tried(
            h,
            m,
            variables(h.metas[m as int].gamma).len() as int,
            fuel,
            next,
        ) matches Ok((s, g, n)) ==> exhausts(
            h.metas[m as int].gamma,
            m,
            fuel,
            (h, next),
            (g, n),
            s,
        ),
{
    let es = h.metas[m as int].gamma;
    let k = variables(es).len() as int;
    if let Ok((s, g, n)) = tried(h, m, k, fuel, next) {
        law_variables_enumerated(es);
        lemma_tried_traced(h, m, k, fuel, next);
        let (states, outcomes, at) = choose|
            states: Seq<(Heap, u64)>,
            outcomes: Seq<Outcome>,
            at: Seq<int>,
        | #[trigger]
            traced(h, m, k, fuel, next, states, outcomes, at);
        let order = places(variables(es));
        assert(order.take(k) =~= order);
        assert(tests(es, m, fuel, order, states, outcomes));
        assert(collects(order, outcomes, s, at));
    }
}

/// The candidates from the last to the first.
pub open spec fn backwards(s: Seq<CandidateView>) -> Seq<CandidateView> {
    Seq::new(s.len(), |j: int| s[s.len() - 1 - j])
}

/// The heap in which it is marked whether `m` has a rigid equation.
pub open spec fn marked(h: Heap, m: MetaId, rigid: bool) -> Heap {
    Heap {
        metas: h.metas.update(
            m as int,
            MetaView { had_rigid_equation: rigid, ..h.metas[m as int] },
        ),
        ..h
    }
}

/// The domain of a frame is exhaustive: it holds a candidate for each variable of the context,
/// parameter or let declaration, that can be assigned, and no other. The first variable that can be
/// assigned is the next one to try, at the end.
pub proof fn law_domain_exhausts(h: Heap, f: FrameView, fuel: nat, next: u64)
    requires
        f.meta() < h.metas.len(),
        countable(h.metas[f.meta() as int].gamma),
    ensures
        populated(h, f, fuel, next) matches Ok((r, g, n)) ==> {
            &&& r == FrameView { domain: r.domain, ..f }
            &&& exhausts(
                h.metas[f.meta() as int].gamma,
                f.meta(),
                fuel,
                (marked(h, f.meta(), f.component.next.has_rigid_equation), next),
                (g, n),
                backwards(r.domain),
            )
        },
{
    let m = f.meta();
    let start = with_rigid(h, m, f.component.next.has_rigid_equation);
    if let Ok((r, g, n)) = populated(h, f, fuel, next) {
        law_candidates_exhaust(start, m, fuel, next);
        let es = h.metas[m as int].gamma;
        let (s, _, _) = tried(start, m, variables(es).len() as int, fuel, next)->Ok_0;
        assert(s =~= backwards(r.domain));
        assert(start == marked(h, m, f.component.next.has_rigid_equation));
    }
}

/// Whether testing the variables of `order` in the heap `h`, each on its own with the identifiers
/// from `ids` on, comes to `outcomes`.
pub open spec fn tests_apart(
    h: Heap,
    m: MetaId,
    fuel: nat,
    order: Seq<DeBruijnIndex>,
    ids: Seq<u64>,
    outcomes: Seq<Outcome>,
) -> bool {
    &&& ids.len() == order.len() + 1
    &&& outcomes.len() == order.len()
    &&& forall|k: int|
        0 <= k < order.len() ==> (attempt(
            h,
            #[trigger] order[k],
            h.metas[m as int].gamma[order[k].0.0 as int],
            m,
            fuel,
            ids[k],
        ) matches Ok((o, _, n)) && o == outcomes[k] && n == ids[k + 1])
}

/// Whether the `k`th outcome is a candidate, and no other is.
pub open spec fn only(outcomes: Seq<Outcome>, k: int) -> bool {
    &&& 0 <= k < outcomes.len()
    &&& outcomes[k] matches Some(Some(_))
    &&& forall|j: int|
        0 <= j < outcomes.len() && j != k ==> !(#[trigger] outcomes[j] matches Some(Some(_)))
}

/// Whether `db` is the only variable of the context of `m` that can be assigned to it: the tests of
/// all variables begin with the identifier `next` and end with `after`.
pub open spec fn sole(
    h: Heap,
    m: MetaId,
    db: DeBruijnIndex,
    fuel: nat,
    next: u64,
    after: u64,
) -> bool {
    exists|order: Seq<DeBruijnIndex>, ids: Seq<u64>, outcomes: Seq<Outcome>, k: int|
        #![trigger tests_apart(h, m, fuel, order, ids, outcomes), only(outcomes, k)]
        enumerates(h.metas[m as int].gamma, order) && tests_apart(
            h,
            m,
            fuel,
            order,
            ids,
            outcomes,
        ) && ids[0] == next && ids.last() == after && only(outcomes, k) && order[k] == db
}

/// Whether no variable of the context of `m`, or more than one, can be assigned to it.
pub open spec fn unforced(h: Heap, m: MetaId, fuel: nat, next: u64, after: u64) -> bool {
    exists|order: Seq<DeBruijnIndex>, ids: Seq<u64>, outcomes: Seq<Outcome>|
        #![trigger tests_apart(h, m, fuel, order, ids, outcomes)]
        enumerates(h.metas[m as int].gamma, order) && tests_apart(
            h,
            m,
            fuel,
            order,
            ids,
            outcomes,
        ) && ids[0] == next && ids.last() == after && forall|k: int| !#[trigger] only(outcomes, k)
}

/// The trace of testing the first `k` variables, each on its own. `at` tells where each of those
/// that can be assigned comes from.
spec fn traced_apart(
    h: Heap,
    m: MetaId,
    k: nat,
    fuel: nat,
    next: u64,
    ids: Seq<u64>,
    outcomes: Seq<Outcome>,
    at: Seq<int>,
) -> bool {
    let order = places(variables(h.metas[m as int].gamma)).take(k as int);
    &&& tests_apart(h, m, fuel, order, ids, outcomes)
    &&& ids[0] == next
    &&& options(h, m, k, fuel, next) matches Ok((dbs, n)) && ids.last() == n && at.len()
        == dbs.len() && (forall|j: int|
        0 <= j < at.len() ==> 0 <= #[trigger] at[j] < k && order[at[j]] == dbs[j] && (
        outcomes[at[j]] matches Some(Some(_)))) && (forall|i: int, j: int|
        0 <= i < j < at.len() ==> #[trigger] at[i] < #[trigger] at[j]) && (forall|q: int|
        0 <= q < outcomes.len() && (#[trigger] outcomes[q] matches Some(Some(_))) ==> at.contains(
            q,
        ))
}

proof fn lemma_options_traced(h: Heap, m: MetaId, k: nat, fuel: nat, next: u64)
    requires
        countable(h.metas[m as int].gamma),
        k <= variables(h.metas[m as int].gamma).len(),
        options(h, m, k, fuel, next) is Ok,
    ensures
        exists|ids: Seq<u64>, outcomes: Seq<Outcome>, at: Seq<int>| #[trigger]
            traced_apart(h, m, k, fuel, next, ids, outcomes, at),
    decreases k,
{
    let es = h.metas[m as int].gamma;
    let vars = variables(es);
    let all = places(vars);
    law_variables_enumerated(es);
    if k == 0 {
        let ids = seq![next];
        assert(traced_apart(
            h,
            m,
            k,
            fuel,
            next,
            ids,
            Seq::<Outcome>::empty(),
            Seq::<int>::empty(),
        ));
    } else {
        let l = (k - 1) as nat;
        lemma_options_traced(h, m, l, fuel, next);
        let (ids, outcomes, at) = choose|ids: Seq<u64>, outcomes: Seq<Outcome>, at: Seq<int>|
            #[trigger] traced_apart(h, m, l, fuel, next, ids, outcomes, at);
        let (dbs, n) = options(h, m, l, fuel, next)->Ok_0;
        let (dbs2, _) = options(h, m, k, fuel, next)->Ok_0;
        let db = vars[k - 1].0;
        assert(all[k - 1] == db);
        assert(depths(es)[k - 1] == db.0.0);
        let (o, _, n2) = attempt(h, db, es[db.0.0 as int], m, fuel, n)->Ok_0;
        let ids2 = ids.push(n2);
        let outcomes2 = outcomes.push(o);
        let at2 = if o matches Some(Some(_)) {
            at.push(k - 1)
        } else {
            at
        };
        let (before, order) = (all.take(k - 1), all.take(k as int));
        assert forall|j: int| 0 <= j < order.len() implies (attempt(
            h,
            #[trigger] order[j],
            es[order[j].0.0 as int],
            m,
            fuel,
            ids2[j],
        ) matches Ok((r, _, z)) && r == outcomes2[j] && z == ids2[j + 1]) by {
            if j < k - 1 {
                assert(order[j] == before[j]);
            }
        }
        assert forall|j: int| 0 <= j < at2.len() implies 0 <= #[trigger] at2[j] < k
            && order[at2[j]] == dbs2[j] && (outcomes2[at2[j]] matches Some(Some(_))) by {
            if j < at.len() {
                assert(at2[j] == at[j]);
                assert(before[at[j]] == order[at[j]]);
                assert(outcomes2[at[j]] == outcomes[at[j]]);
            }
        }
        assert forall|i: int, j: int| 0 <= i < j < at2.len() implies #[trigger] at2[i]
            < #[trigger] at2[j] by {
            assert(at2[i] == at[i]);
            if j < at.len() {
                assert(at2[j] == at[j]);
            }
        }
        assert forall|q: int|
            0 <= q < outcomes2.len() && (#[trigger] outcomes2[q] matches Some(
                Some(_),
            )) implies at2.contains(q) by {
            if q < k - 1 {
                assert(outcomes[q] == outcomes2[q]);
                let j = choose|j: int| 0 <= j < at.len() && at[j] == q;
                assert(at2[j] == q);
            } else {
                assert(at2[at.len() as int] == q);
            }
        }
        assert(traced_apart(h, m, k, fuel, next, ids2, outcomes2, at2));
    }
}

/// Whether a variable is forced tells whether it is the only one that can be assigned.
proof fn lemma_options_sole(h: Heap, m: MetaId, fuel: nat, next: u64)
    requires
        countable(h.metas[m as int].gamma),
    ensures
        options(
            h,
            m,
            variables(h.metas[m as int].gamma).len(),
            fuel,
            next,
        ) matches Ok((dbs, n)) ==> if dbs.len() == 1 {
            sole(h, m, dbs[0], fuel, next, n)
        } else {
            unforced(h, m, fuel, next, n)
        },
{
    let es = h.metas[m as int].gamma;
    let k = variables(es).len();
    if let Ok((dbs, n)) = options(h, m, k, fuel, next) {
        law_variables_enumerated(es);
        lemma_options_traced(h, m, k, fuel, next);
        let (ids, outcomes, at) = choose|ids: Seq<u64>, outcomes: Seq<Outcome>, at: Seq<int>|
            #[trigger] traced_apart(h, m, k, fuel, next, ids, outcomes, at);
        let order = places(variables(es));
        assert(order.take(k as int) =~= order);
        assert(tests_apart(h, m, fuel, order, ids, outcomes));
        if dbs.len() == 1 {
            let q = at[0];
            assert(only(outcomes, q)) by {
                assert forall|j: int| 0 <= j < outcomes.len() && j != q implies !(
                #[trigger] outcomes[j] matches Some(Some(_))) by {
                    if outcomes[j] matches Some(Some(_)) {
                        let i = choose|i: int| 0 <= i < at.len() && at[i] == j;
                        assert(i == 0);
                    }
                }
            }
            assert(order[q] == dbs[0]);
        } else {
            assert forall|q: int| !#[trigger] only(outcomes, q) by {
                if only(outcomes, q) {
                    assert(at.contains(q));
                    let i = choose|i: int| 0 <= i < at.len() && at[i] == q;
                    let j: int = if i == 0 {
                        1
                    } else {
                        0
                    };
                    assert(at[j] != at[i]);
                    assert(outcomes[at[j]] matches Some(Some(_)));
                }
            }
        }
    }
}

/// A move that is forced is the only one: the metavariable is one of `ms`, and of all variables of
/// its context only the one that is given can be assigned to it. Each of `ms` before it, or each
/// where no move is forced, has no variable that can be assigned, or more than one.
pub proof fn law_forced_sole(h: Heap, ms: Seq<MetaId>, i: nat, fuel: nat, next: u64)
    requires
        i <= ms.len(),
        forall|k: int| 0 <= k < ms.len() ==> countable(h.metas[#[trigger] ms[k] as int].gamma),
    ensures
        match forced(h, ms, i, fuel, next) {
            Err(_) => true,
            Ok((Some((m, db)), _)) => forced_at(h, ms, i as int, m, db, fuel),
            Ok((None, _)) => all_unforced(h, ms, i as int, ms.len() as int, fuel),
        },
    decreases ms.len() - i,
{
    if i < ms.len() {
        let m = ms[i as int];
        let es = h.metas[m as int].gamma;
        lemma_options_sole(h, m, fuel, next);
        match options(h, m, variables(es).len(), fuel, next) {
            Err(_) => {},
            Ok((dbs, n)) => {
                if dbs.len() == 1 {
                    assert(sole(h, m, dbs[0], fuel, next, n));
                    assert(alone(h, ms[i as int], dbs[0], fuel));
                    assert(all_unforced(h, ms, i as int, i as int, fuel));
                } else {
                    law_forced_sole(h, ms, i + 1, fuel, n);
                    assert(unforced(h, m, fuel, next, n));
                    assert(stays_open(h, ms[i as int], fuel));
                    match forced(h, ms, i + 1, fuel, n) {
                        Ok((Some((m2, db)), _)) => {
                            let k = choose|k: int|
                                i + 1 <= k < ms.len() && #[trigger] ms[k] == m2 && alone(
                                    h,
                                    m2,
                                    db,
                                    fuel,
                                ) && all_unforced(h, ms, i as int + 1, k, fuel);
                            assert(all_unforced(h, ms, i as int, k, fuel));
                            assert(ms[k] == m2);
                        },
                        _ => {},
                    }
                }
            },
        }
    }
}

/// Whether each of `ms` from `i` to `k` has no variable that can be assigned to it, or more than
/// one.
pub open spec fn all_unforced(h: Heap, ms: Seq<MetaId>, i: int, k: int, fuel: nat) -> bool {
    forall|j: int| i <= j < k ==> stays_open(h, #[trigger] ms[j], fuel)
}

/// Whether `db` is the only variable of the context of `m` that can be assigned to it, tested with
/// some identifiers.
pub open spec fn alone(h: Heap, m: MetaId, db: DeBruijnIndex, fuel: nat) -> bool {
    exists|next: u64, after: u64| #[trigger] sole(h, m, db, fuel, next, after)
}

/// Whether `m` is one of `ms` from `i` on, `db` is the only variable that can be assigned to it,
/// and none before it has only one.
pub open spec fn forced_at(
    h: Heap,
    ms: Seq<MetaId>,
    i: int,
    m: MetaId,
    db: DeBruijnIndex,
    fuel: nat,
) -> bool {
    exists|k: int|
        i <= k < ms.len() && #[trigger] ms[k] == m && alone(h, m, db, fuel) && all_unforced(
            h,
            ms,
            i,
            k,
            fuel,
        )
}

/// Whether no variable of the context of `m`, or more than one, can be assigned to it, tested with
/// some identifiers.
pub open spec fn stays_open(h: Heap, m: MetaId, fuel: nat) -> bool {
    exists|next: u64, after: u64| #[trigger] unforced(h, m, fuel, next, after)
}

/// Whether the variable `db` has the given name.
pub open spec fn has_name(
    h: Heap,
    es: Seq<NodeView>,
    db: DeBruijnIndex,
    name: Seq<char>,
) -> bool {
    let b = told(es, db).bind;
    variable_in(es, db) && b < h.binds.len() && h.binds[b as int].name == name
}

proof fn lemma_first_named(
    h: Heap,
    vars: Seq<(DeBruijnIndex, Var)>,
    name: Seq<char>,
    k: int,
)
    requires
        0 <= k,
    ensures
        match first_named(h, vars, name, k) {
            None => forall|j: int|
                k <= j < vars.len() ==> !named(h, (#[trigger] vars[j]).1.bind, name),
            Some(v) => exists|i: int|
                k <= i < vars.len() && #[trigger] vars[i] == v && named(h, v.1.bind, name)
                    && forall|j: int|
                    k <= j < i ==> !named(h, (#[trigger] vars[j]).1.bind, name),
        },
    decreases vars.len() - k,
{
    if k < vars.len() {
        if named(h, vars[k].1.bind, name) {
            assert(vars[k] == first_named(h, vars, name, k)->0);
        } else {
            lemma_first_named(h, vars, name, k + 1);
            if let Some(v) = first_named(h, vars, name, k + 1) {
                let i = choose|i: int|
                    k + 1 <= i < vars.len() && #[trigger] vars[i] == v && named(h, v.1.bind, name)
                        && forall|j: int|
                        k + 1 <= j < i ==> !named(h, (#[trigger] vars[j]).1.bind, name);
                assert(vars[i] == v);
            }
        }
    }
}

/// A name stands for the variable that comes first among those of that name: the innermost one, and
/// of those the parameter, and of those the last. There is none just where no variable has the
/// name.
pub proof fn law_name_found(h: Heap, es: Seq<NodeView>, name: Seq<char>)
    requires
        countable(es),
    ensures
        match first_named(h, variables(es), name, 0) {
            None => forall|db: DeBruijnIndex| !#[trigger] has_name(h, es, db, name),
            Some((db, v)) => {
                &&& has_name(h, es, db, name)
                &&& v == told(es, db)
                &&& forall|other: DeBruijnIndex| #[trigger]
                    has_name(h, es, other, name) ==> other == db || comes_before(db, other)
            },
        },
{
    let vars = variables(es);
    let order = places(vars);
    law_variables_enumerated(es);
    lemma_first_named(h, vars, name, 0);
    match first_named(h, vars, name, 0) {
        None => {
            assert forall|db: DeBruijnIndex| !#[trigger] has_name(h, es, db, name) by {
                if has_name(h, es, db, name) {
                    assert(order.contains(db));
                    let j = choose|j: int| 0 <= j < order.len() && order[j] == db;
                    assert(vars[j].1 == told(es, vars[j].0));
                }
            }
        },
        Some(v) => {
            let i = choose|i: int|
                0 <= i < vars.len() && #[trigger] vars[i] == v && named(h, v.1.bind, name)
                    && forall|j: int|
                    0 <= j < i ==> !named(h, (#[trigger] vars[j]).1.bind, name);
            assert(vars[i].1 == told(es, vars[i].0));
            assert(order[i] == v.0);
            assert(variable_in(es, order[i]));
            assert forall|other: DeBruijnIndex| #[trigger]
                has_name(h, es, other, name) implies other == v.0 || comes_before(v.0, other) by {
                assert(order.contains(other));
                let j = choose|j: int| 0 <= j < order.len() && order[j] == other;
                assert(vars[j].1 == told(es, vars[j].0));
                if j < i {
                    assert(!named(h, vars[j].1.bind, name));
                } else if i < j {
                    assert(comes_before(order[i], order[j]));
                }
            }
        },
    }
}

/// Whether `dbs` lists the variables that can be assigned, in order: `at` tells where each comes
/// from.
pub open spec fn assignable(
    order: Seq<DeBruijnIndex>,
    outcomes: Seq<Outcome>,
    dbs: Seq<DeBruijnIndex>,
    at: Seq<int>,
) -> bool {
    &&& at.len() == dbs.len()
    &&& forall|j: int|
        0 <= j < at.len() ==> 0 <= #[trigger] at[j] < outcomes.len() && order[at[j]] == dbs[j] && (
        outcomes[at[j]] matches Some(Some(_)))
    &&& forall|i: int, j: int| 0 <= i < j < at.len() ==> #[trigger] at[i] < #[trigger] at[j]
    &&& forall|k: int|
        0 <= k < outcomes.len() && (#[trigger] outcomes[k] matches Some(Some(_))) ==> at.contains(k)
}

/// The options for a metavariable are all variables of its context, parameters and let
/// declarations, that can be assigned to it, and no others, in the order in which they are tried.
pub proof fn law_options_exact(h: Heap, m: MetaId, fuel: nat, next: u64)
    requires
        countable(h.metas[m as int].gamma),
    ensures
        options(
            h,
            m,
            variables(h.metas[m as int].gamma).len(),
            fuel,
            next,
        ) matches Ok((dbs, n)) ==> exists|
            order: Seq<DeBruijnIndex>,
            ids: Seq<u64>,
            outcomes: Seq<Outcome>,
            at: Seq<int>,
        |
            #![trigger
                tests_apart(h, m, fuel, order, ids, outcomes),
                assignable(order, outcomes, dbs, at)]
            enumerates(h.metas[m as int].gamma, order) && tests_apart(
                h,
                m,
                fuel,
                order,
                ids,
                outcomes,
            ) && ids[0] == next && ids.last() == n && assignable(order, outcomes, dbs, at),
{
    let es = h.metas[m as int].gamma;
    let k = variables(es).len();
    if let Ok((dbs, n)) = options(h, m, k, fuel, next) {
        law_variables_enumerated(es);
        lemma_options_traced(h, m, k, fuel, next);
        let (ids, outcomes, at) = choose|ids: Seq<u64>, outcomes: Seq<Outcome>, at: Seq<int>|
            #[trigger] traced_apart(h, m, k, fuel, next, ids, outcomes, at);
        let order = places(variables(es));
        assert(order.take(k as int) =~= order);
        assert(tests_apart(h, m, fuel, order, ids, outcomes));
        assert(assignable(order, outcomes, dbs, at));
    }
}

/// Whether `text` holds a button for each of `dbs`, which assigns it to `m`, in order and with a
/// break between each two: `names` tells what stands on them.
pub open spec fn buttons(
    m: MetaId,
    dbs: Seq<DeBruijnIndex>,
    names: Seq<Seq<char>>,
    text: Seq<char>,
) -> bool
    decreases dbs.len(),
{
    &&& names.len() == dbs.len()
    &&& if dbs.len() == 0 {
        text.len() == 0
    } else if dbs.len() == 1 {
        text == button(m, dbs[0], names[0])
    } else {
        exists|before: Seq<char>| #[trigger]
            any(before) && buttons(m, dbs.drop_last(), names.drop_last(), before) && text == before
                + "</br>"@ + button(m, dbs.last(), names.last())
    }
}

/// The button that assigns the variable `db` to `m`: it says by which level and index, and whether
/// it is a let declaration.
pub open spec fn button(m: MetaId, db: DeBruijnIndex, name: Seq<char>) -> Seq<char> {
    let index = match db.1 {
        Index::Param(i) => i,
        Index::Let(i) => i,
    };
    let def = if db.1 is Let {
        "true"@
    } else {
        "false"@
    };
    "<button class='option' onclick='assign("@ + decimal(m as nat) + ", "@ + decimal(
        db.0.0 as nat,
    ) + ", "@ + decimal(index as nat) + ", "@ + def + ")'>"@ + name + "</button>"@
}

/// There is a button for each option, and none for anything else: the buttons are those of the
/// variables that can be assigned, in order, and as many.
pub proof fn law_buttons(h: Heap, m: MetaId, k: nat, fuel: nat, next: u64)
    requires
        k <= variables(h.metas[m as int].gamma).len(),
    ensures
        match options_text(h, m, k, fuel, next) {
            Ok((text, count, n)) => exists|dbs: Seq<DeBruijnIndex>, names: Seq<Seq<char>>|
                options(h, m, k, fuel, next) == Ok::<_, Fault>((dbs, n)) && dbs.len() == count
                    && #[trigger] buttons(m, dbs, names, text),
            Err(_) => true,
        },
{
    if let Ok((text, count, n)) = options_text(h, m, k, fuel, next) {
        let names = lemma_buttons(h, m, k, fuel, next);
        let (dbs, _) = options(h, m, k, fuel, next)->Ok_0;
        assert(buttons(m, dbs, names, text));
    }
}

proof fn lemma_buttons(h: Heap, m: MetaId, k: nat, fuel: nat, next: u64) -> (names: Seq<Seq<char>>)
    requires
        k <= variables(h.metas[m as int].gamma).len(),
        options_text(h, m, k, fuel, next) is Ok,
    ensures
        options(h, m, k, fuel, next) is Ok,
        ({
            let (text, count, n) = options_text(h, m, k, fuel, next)->Ok_0;
            let (dbs, n2) = options(h, m, k, fuel, next)->Ok_0;
            n2 == n && dbs.len() == count && buttons(m, dbs, names, text)
        }),
    decreases k,
{
    if k == 0 {
        Seq::empty()
    } else {
        let l = (k - 1) as nat;
        let names = lemma_buttons(h, m, l, fuel, next);
        let (before, c0, n0) = options_text(h, m, l, fuel, next)->Ok_0;
        let (dbs, _) = options(h, m, l, fuel, next)->Ok_0;
        let es = h.metas[m as int].gamma;
        let db = variables(es)[k - 1].0;
        match attempt(h, db, es[depths(es)[k - 1]], m, fuel, n0) {
            Ok((Some(Some(c)), _, _)) => {
                let name = h.binds[c.assignment.bind as int].name;
                let (more, longer) = (dbs.push(db), names.push(name));
                assert(more.drop_last() =~= dbs);
                assert(longer.drop_last() =~= names);
                assert(button(m, db, name) == option_text(m, db, name));
                assert(any(before));
                longer
            },
            _ => names,
        }
    }
}

} // verus!
