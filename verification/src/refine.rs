//! Refining a term by hand: the terms that were shown, and what may be done next.
use crate::data::{Linked, MetaId, Term, TermView, Var, ES, WHNF};
use crate::es::{depths, variables};
use crate::ids::{Fault, Ids};
use crate::independence::{args_leaves, collect_unassigned, leaves};
use crate::index::DeBruijnIndex;
use crate::ir::IRSpine;
use crate::memory::{Heap, Store};
use crate::readback::{lemma_tried_and_dropped, read_body};
use crate::search::attempt;
use crate::shown::shown_spine;
use crate::term::{args_of, effects, whnf};
use std::rc::Rc;
use vstd::prelude::*;

verus! {

/// The maximum number of forced moves that can be made on the user's behalf at one time.
pub const AUTOFILL_LIMIT: u32 = 30;

proof fn lemma_args_leaves_contain(h: Heap, m: MetaId, k: nat, i: nat, x: MetaId)
    requires
        i < k <= args_of(h, m).len(),
        m < args_of(h, m)[i as int] < h.metas.len(),
        leaves(h, args_of(h, m)[i as int]).contains(x),
    ensures
        args_leaves(h, m, k).contains(x),
    decreases k,
{
    let arg = args_of(h, m)[k - 1];
    let before = args_leaves(h, m, (k - 1) as nat);
    let last = if m < arg < h.metas.len() {
        leaves(h, arg)
    } else {
        Seq::empty()
    };
    if i == k - 1 {
        let j = choose|j: int| 0 <= j < last.len() && last[j] == x;
        assert((before + last)[before.len() + j] == x);
    } else {
        lemma_args_leaves_contain(h, m, (k - 1) as nat, i, x);
        let j = choose|j: int| 0 <= j < before.len() && before[j] == x;
        assert((before + last)[j] == x);
    }
}

/// Find a metavariable with the given number among the unassigned ones in the term of `meta`.
pub fn find_with_id(store: &Store, meta: MetaId, id: usize) -> (r: Option<MetaId>)
    requires
        store@.ordered(),
        meta < store@.metas.len(),
    ensures
        r == if leaves(store@, meta).contains(id) {
            Some(id)
        } else {
            None
        },
    decreases store@.metas.len() - meta,
{
    let ghost h = store@;
    match &store.meta(meta).assignment {
        None => {
            assert(leaves(h, meta) =~= seq![meta]);
            if meta == id {
                assert(leaves(h, meta)[0] == id);
                Some(meta)
            } else {
                None
            }
        },
        Some(a) => {
            let mut i: usize = 0;
            while i < a.args.len()
                invariant
                    i <= a.args@.len(),
                    h == store@,
                    h.ordered(),
                    h.assigned(meta),
                    a.args@ == args_of(h, meta),
                    !args_leaves(h, meta, i as nat).contains(id),
                decreases a.args@.len() - i,
            {
                assert(h.metas[meta as int].assignment->0.args[i as int] == a.args@[i as int]);
                match find_with_id(store, a.args[i], id) {
                    Some(found) => {
                        proof {
                            lemma_args_leaves_contain(
                                h,
                                meta,
                                args_of(h, meta).len(),
                                i as nat,
                                id,
                            );
                        }
                        return Some(found);
                    },
                    None => {},
                }
                proof {
                    let before = args_leaves(h, meta, i as nat);
                    let last = leaves(h, a.args@[i as int]);
                    if (before + last).contains(id) {
                        let j = choose|j: int|
                            0 <= j < (before + last).len() && (before + last)[j] == id;
                        if j < before.len() {
                            assert(before[j] == id);
                        } else {
                            assert(last[j - before.len()] == id);
                        }
                    }
                }
                i = i + 1;
            }
            None
        },
    }
}

/// Those of the first `k` variables that can be assigned to `m`. Also gives the next identifier.
pub open spec fn options(h: Heap, m: MetaId, k: nat, fuel: nat, next: u64) -> Result<
    (Seq<DeBruijnIndex>, u64),
    Fault,
>
    decreases k,
{
    let es = h.metas[m as int].gamma;
    if k == 0 || k > variables(es).len() {
        Ok((Seq::empty(), next))
    } else {
        match options(h, m, (k - 1) as nat, fuel, next) {
            Err(f) => Err(f),
            Ok((dbs, n)) => {
                let db = variables(es)[k - 1].0;
                match attempt(h, db, es[depths(es)[k - 1]], m, fuel, n) {
                    Err(f) => Err(f),
                    Ok((Some(Some(_)), _, n2)) => Ok((dbs.push(db), n2)),
                    Ok((_, _, n2)) => Ok((dbs, n2)),
                }
            },
        }
    }
}

/// The first of the metavariables `ms`, from the `i`th on, that can be assigned exactly one
/// variable, with that variable. Also gives the next identifier.
pub open spec fn forced(h: Heap, ms: Seq<MetaId>, i: nat, fuel: nat, next: u64) -> Result<
    (Option<(MetaId, DeBruijnIndex)>, u64),
    Fault,
>
    decreases ms.len() - i,
{
    if i >= ms.len() {
        Ok((None, next))
    } else {
        let m = ms[i as int];
        match options(h, m, variables(h.metas[m as int].gamma).len(), fuel, next) {
            Err(f) => Err(f),
            Ok((dbs, n)) => if dbs.len() == 1 {
                Ok((Some((m, dbs[0])), n))
            } else {
                forced(h, ms, i + 1, fuel, n)
            },
        }
    }
}

proof fn lemma_options_fail(h: Heap, m: MetaId, k: nat, n: nat, fuel: nat, next: u64)
    requires
        k <= n <= variables(h.metas[m as int].gamma).len(),
        options(h, m, k, fuel, next) is Err,
    ensures
        options(h, m, n, fuel, next) == options(h, m, k, fuel, next),
    decreases n - k,
{
    if k < n {
        lemma_options_fail(h, m, k, (n - 1) as nat, fuel, next);
    }
}

/// The variables that can be assigned to `meta`.
fn domain_of(store: &mut Store, meta: MetaId, fuel: usize, ids: &mut Ids) -> (r: Result<
    Vec<DeBruijnIndex>,
    Fault,
>)
    requires
        meta < old(store)@.metas.len(),
        !old(store)@.assigned(meta),
    ensures
        options(
            old(store)@,
            meta,
            variables(old(store)@.metas[meta as int].gamma).len(),
            fuel as nat,
            old(ids).next,
        ) == match r {
            Ok(v) => Ok::<(Seq<DeBruijnIndex>, u64), Fault>((v@, final(ids).next)),
            Err(f) => Err(f),
        },
        final(store)@ == old(store)@,
{
    let ghost h = store@;
    let ghost es = h.metas[meta as int].gamma;
    let len: usize = store.metas.len();
    assert(len == h.metas.len());
    let gamma: ES = store.meta(meta).gamma.clone();
    let items = gamma.iter();
    let ghost proj = |x: (DeBruijnIndex, Rc<Linked>, Var)| (x.0, x.2);
    assert(items@.map_values(proj) == variables(es));
    assert(items@.len() == variables(es).len());
    let mut out: Vec<DeBruijnIndex> = Vec::new();
    let mut k: usize = 0;
    while k < items.len()
        invariant
            k <= items@.len(),
            h == old(store)@,
            store@ == h,
            len == h.metas.len(),
            meta < len,
            !h.assigned(meta),
            es == h.metas[meta as int].gamma,
            proj == (|x: (DeBruijnIndex, Rc<Linked>, Var)| (x.0, x.2)),
            items@.map_values(proj) == variables(es),
            items@.len() == variables(es).len(),
            forall|j: int|
                0 <= j < items@.len() ==> crate::es::starts_at(
                    es,
                    (#[trigger] items@[j]).1,
                    depths(es)[j],
                ),
            options(h, meta, k as nat, fuel as nat, old(ids).next) == Ok::<
                (Seq<DeBruijnIndex>, u64),
                Fault,
            >((out@, ids.next)),
        decreases items@.len() - k,
    {
        let ghost next = ids.next;
        let db: DeBruijnIndex = items[k].0;
        proof {
            assert(variables(es)[k as int] == proj(items@[k as int]));
            assert(crate::es::starts_at(es, items@[k as int].1, depths(es)[k as int]));
            assert(crate::data::nodes(Some(items@[k as int].1))[0] == items@[k as int].1.node@);
        }
        match crate::search::test(store, db, &items[k].1, meta, fuel, ids) {
            Err(f) => {
                assert(store@.metas =~= h.metas);
                proof {
                    lemma_options_fail(
                        h,
                        meta,
                        (k + 1) as nat,
                        items@.len(),
                        fuel as nat,
                        old(ids).next,
                    );
                }
                return Err(f);
            },
            Ok(o) => {
                proof {
                    lemma_tried_and_dropped(
                        h,
                        store@,
                        db,
                        items@[k as int].1.node@,
                        meta,
                        fuel as nat,
                        next,
                    );
                }
                store.truncate(len);
                if let Some(Some(_)) = o {
                    out.push(db);
                }
            },
        }
        k = k + 1;
    }
    Ok(out)
}

/// Whether all of `ms` are unassigned metavariables.
pub open spec fn all_open(h: Heap, ms: Seq<MetaId>) -> bool {
    forall|i: int|
        0 <= i < ms.len() ==> (#[trigger] ms[i]) < h.metas.len() && !h.assigned(ms[i])
}

pub proof fn lemma_leaves_open(h: Heap, m: MetaId)
    requires
        m < h.metas.len(),
        h.ordered(),
    ensures
        all_open(h, leaves(h, m)),
    decreases h.metas.len() - m, 1nat, 0nat,
{
    if h.assigned(m) {
        lemma_args_leaves_open(h, m, args_of(h, m).len());
        assert(leaves(h, m) == args_leaves(h, m, args_of(h, m).len()));
    } else {
        assert(leaves(h, m) == seq![m]);
    }
}

proof fn lemma_args_leaves_open(h: Heap, m: MetaId, k: nat)
    requires
        m < h.metas.len(),
        h.ordered(),
    ensures
        all_open(h, args_leaves(h, m, k)),
    decreases h.metas.len() - m, 0nat, k,
{
    if k == 0 || k > args_of(h, m).len() {
        assert(args_leaves(h, m, k) == Seq::<MetaId>::empty());
    } else {
        lemma_args_leaves_open(h, m, (k - 1) as nat);
        let arg = args_of(h, m)[k - 1];
        let last = if m < arg < h.metas.len() {
            lemma_leaves_open(h, arg);
            leaves(h, arg)
        } else {
            Seq::empty()
        };
        assert(args_leaves(h, m, k) == args_leaves(h, m, (k - 1) as nat) + last);
    }
}

/// If there exists a metavariable with a single domain element, return that metavariable and the
/// `DeBruijnIndex` of the variable.
pub fn find_autofill(store: &mut Store, meta: MetaId, fuel: usize, ids: &mut Ids) -> (r: Result<
    Option<(MetaId, DeBruijnIndex)>,
    Fault,
>)
    requires
        old(store)@.ordered(),
        meta < old(store)@.metas.len(),
    ensures
        forced(
            old(store)@,
            leaves(old(store)@, meta),
            0,
            fuel as nat,
            old(ids).next,
        ) == match r {
            Ok(o) => Ok::<(Option<(MetaId, DeBruijnIndex)>, u64), Fault>((o, final(ids).next)),
            Err(f) => Err(f),
        },
        final(store)@ == old(store)@,
{
    let ghost h = store@;
    let mut unassigned: Vec<MetaId> = Vec::new();
    collect_unassigned(store, meta, &mut unassigned);
    assert(unassigned@ =~= leaves(h, meta));
    proof {
        lemma_leaves_open(h, meta);
    }
    let mut i: usize = 0;
    while i < unassigned.len()
        invariant
            i <= unassigned@.len(),
            h == old(store)@,
            store@ == h,
            unassigned@ == leaves(h, meta),
            all_open(h, unassigned@),
            forced(h, leaves(h, meta), 0, fuel as nat, old(ids).next) == forced(
                h,
                leaves(h, meta),
                i as nat,
                fuel as nat,
                ids.next,
            ),
        decreases unassigned@.len() - i,
    {
        let m: MetaId = unassigned[i];
        match domain_of(store, m, fuel, ids) {
            Err(f) => {
                return Err(f);
            },
            Ok(domain) => {
                if domain.len() == 1 {
                    return Ok(Some((m, domain[0])));
                }
            },
        }
        i = i + 1;
    }
    Ok(None)
}

/// The term of `m` as HTML. Also gives the next identifier.
pub open spec fn page(h: Heap, m: MetaId, fuel: nat, next: u64) -> Result<(Seq<char>, u64), Fault> {
    let t = TermView { base: m, es: h.metas[m as int].gamma };
    match whnf(h, t, false, false, fuel, crate::constraint::fresh(next)) {
        Err(f) => Err(f),
        Ok((w, e)) => match read_body(h, w, false, true, fuel, e.next) {
            Err(f) => Err(f),
            Ok((_, spine, n)) => Ok((shown_spine(spine), n)),
        },
    }
}

/// Get the term of `meta` as HTML.
pub fn term_html(store: &mut Store, meta: MetaId, fuel: usize, ids: &mut Ids) -> (r: Result<
    String,
    Fault,
>)
    requires
        meta < old(store)@.metas.len(),
    ensures
        page(old(store)@, meta, fuel as nat, old(ids).next) == match r {
            Ok(s) => Ok::<(Seq<char>, u64), Fault>((s@, final(ids).next)),
            Err(f) => Err(f),
        },
        final(store)@ == old(store)@,
{
    let ghost h = store@;
    let binds: usize = store.binds.len();
    assert(binds == h.binds.len());
    let term = Term { base: meta, es: store.meta(meta).gamma.clone() };
    let mut owned_linked: Vec<Rc<Linked>> = Vec::new();
    assert(effects(*ids, owned_linked@, ()) == crate::constraint::fresh(ids.next));
    let w: WHNF = match term.whnf::<false, ()>(store, fuel, ids, &mut owned_linked, &mut ()) {
        Err(f) => {
            return Err(f);
        },
        Ok(w) => w,
    };
    let read = IRSpine::from_body::<false>(store, w, true, fuel, ids);
    store.truncate_binds(binds);
    match read {
        Err(f) => Err(f),
        Ok(spine) => {
            Ok(spine.to_string())
        },
    }
}

/// The name of the bind of the type of `m`.
pub open spec fn bind_name(h: Heap, m: MetaId) -> Option<Seq<char>> {
    if m >= h.metas.len() {
        None
    } else {
        match h.metas[m as int].typ {
            None => None,
            Some(t) => if t.bind < h.binds.len() {
                Some(h.binds[t.bind as int].name)
            } else {
                None
            },
        }
    }
}

/// The names of metavariables, unless one has none.
pub fn names_of(store: &Store, metas: &Vec<MetaId>) -> (r: Option<Vec<String>>)
    ensures
        match r {
            Some(v) => v@.len() == metas@.len() && forall|i: int|
                0 <= i < metas@.len() ==> bind_name(store@, metas@[i]) == Some(
                    (#[trigger] v@[i])@,
                ),
            None => exists|i: int|
                0 <= i < metas@.len() && bind_name(store@, #[trigger] metas@[i]) is None,
        },
{
    let mut out: Vec<String> = Vec::new();
    let mut i: usize = 0;
    while i < metas.len()
        invariant
            i <= metas@.len(),
            out@.len() == i,
            forall|j: int|
                0 <= j < i ==> bind_name(store@, metas@[j]) == Some((#[trigger] out@[j])@),
        decreases metas@.len() - i,
    {
        let m: MetaId = metas[i];
        if !store.has_meta(m) {
            assert(bind_name(store@, metas@[i as int]) is None);
            return None;
        }
        match &store.meta(m).typ {
            None => {
                assert(bind_name(store@, metas@[i as int]) is None);
                return None;
            },
            Some(t) => {
                if !store.has_bind(t.2) {
                    assert(bind_name(store@, metas@[i as int]) is None);
                    return None;
                }
                out.push(store.bind(t.2).name.clone());
            },
        }
        i = i + 1;
    }
    Some(out)
}

} // verus!
