//! Names that are not in use yet.
use crate::data::{plain_bind, Bind, BindId, BindView, NodeView, Var, ES};
use crate::elaborate::bind_ids;
use crate::es::{first_named, named, variables};
use crate::index::{DeBruijnIndex, Indexed, Polarity, Slots};
use crate::memory::{Heap, Store};
use crate::text::{append_decimal, decimal, law_decimal_injective};
use std::rc::Rc;
use vstd::prelude::*;

verus! {

/// Whether a variable of `es` has the given name.
pub open spec fn taken(h: Heap, es: Seq<NodeView>, name: Seq<char>) -> bool {
    first_named(h, variables(es), name, 0) is Some
}

/// The `k`th name to try: the preferred name, and then the preferred name with a number.
pub open spec fn suffixed(preferred: Seq<char>, k: nat) -> Seq<char> {
    if k == 0 {
        preferred
    } else {
        preferred + decimal(k)
    }
}

/// Whether the `k`th name is the first that is not taken.
pub open spec fn first_free(h: Heap, es: Seq<NodeView>, preferred: Seq<char>, k: nat) -> bool {
    &&& !taken(h, es, suffixed(preferred, k))
    &&& forall|j: nat| j < k ==> #[trigger] taken(h, es, suffixed(preferred, j))
}

/// The first name that is not taken.
pub open spec fn free_name(h: Heap, es: Seq<NodeView>, preferred: Seq<char>) -> Seq<char> {
    suffixed(preferred, choose|k: nat| first_free(h, es, preferred, k))
}

proof fn lemma_taken(h: Heap, vars: Seq<(DeBruijnIndex, Var)>, name: Seq<char>, k: int)
    requires
        0 <= k,
        first_named(h, vars, name, k) is Some,
    ensures
        exists|i: int| k <= i < vars.len() && named(h, (#[trigger] vars[i]).1.bind, name),
    decreases vars.len() - k,
{
    if k < vars.len() && !named(h, vars[k].1.bind, name) {
        lemma_taken(h, vars, name, k + 1);
    }
}

/// There are at most as many names taken as there are variables.
proof fn lemma_bounded(h: Heap, es: Seq<NodeView>, preferred: Seq<char>, n: nat)
    requires
        forall|j: nat| j < n ==> #[trigger] taken(h, es, suffixed(preferred, j)),
    ensures
        n <= variables(es).len(),
{
    let vars = variables(es);
    let tries = Seq::new(n, |j: int| suffixed(preferred, j as nat));
    let names = Seq::new(vars.len(), |i: int| h.binds[vars[i].1.bind as int].name);
    assert(tries.no_duplicates()) by {
        assert forall|i: int, j: int| 0 <= i < n && 0 <= j < n && i != j implies tries[i]
            != tries[j] by {
            if tries[i] == tries[j] {
                lemma_suffixed_injective(preferred, i as nat, j as nat);
            }
        }
    }
    tries.unique_seq_to_set();
    names.lemma_cardinality_of_set();
    assert forall|x: Seq<char>| tries.to_set().contains(x) implies names.to_set().contains(x) by {
        let j = choose|j: int| 0 <= j < tries.len() && tries[j] == x;
        assert(taken(h, es, suffixed(preferred, j as nat)));
        lemma_taken(h, vars, x, 0);
        let i = choose|i: int| 0 <= i < vars.len() && named(h, (#[trigger] vars[i]).1.bind, x);
        assert(names[i] == x);
    }
    vstd::set_lib::lemma_len_subset(tries.to_set(), names.to_set());
}

proof fn lemma_suffixed_injective(preferred: Seq<char>, i: nat, j: nat)
    requires
        suffixed(preferred, i) == suffixed(preferred, j),
    ensures
        i == j,
{
    let n = preferred.len() as int;
    if i == 0 {
        if j != 0 {
            lemma_decimal_nonempty(j);
            assert(suffixed(preferred, j).len() == n + decimal(j).len());
        }
    } else if j == 0 {
        lemma_decimal_nonempty(i);
        assert(suffixed(preferred, i).len() == n + decimal(i).len());
    } else {
        assert(decimal(i) =~= suffixed(preferred, i).skip(n));
        assert(decimal(j) =~= suffixed(preferred, j).skip(n));
        law_decimal_injective(i, j);
    }
}

proof fn lemma_decimal_nonempty(n: nat)
    ensures
        decimal(n).len() >= 1,
{
    crate::text::lemma_decimal_shape(n);
}

/// Create a `Bind` with the preferred name, with a suffix such that the name is not in use in `es`.
pub fn disambiguate_bind(
    store: &Store,
    preferred_name: &String,
    es: &ES,
    polarity: Polarity,
) -> (r: Bind)
    ensures
        r@ == plain_bind(free_name(store@, es@, preferred_name@), polarity),
        !taken(store@, es@, r@.name),
{
    let limit: usize = es.iter().len();
    assert(limit == variables(es@).len());
    let mut count: u64 = 0;
    let mut name: String = preferred_name.clone();
    while es.index_of(store, &name).is_some()
        invariant
            limit == variables(es@).len(),
            count <= limit,
            name@ == suffixed(preferred_name@, count as nat),
            forall|j: nat|
                j < count ==> #[trigger] taken(store@, es@, suffixed(preferred_name@, j)),
        decreases limit - count,
    {
        proof {
            assert(taken(store@, es@, suffixed(preferred_name@, count as nat)));
            lemma_bounded(store@, es@, preferred_name@, (count + 1) as nat);
        }
        count = count + 1;
        name = preferred_name.clone();
        append_decimal(&mut name, count);
    }
    proof {
        assert(first_free(store@, es@, preferred_name@, count as nat));
        let k = choose|k: nat| first_free(store@, es@, preferred_name@, k);
        assert(k == count) by {
            if k < count {
                assert(taken(store@, es@, suffixed(preferred_name@, k)));
            } else if count < k {
                assert(taken(store@, es@, suffixed(preferred_name@, count as nat)));
            }
        }
    }
    Bind::new(name, polarity)
}

/// There is always a name that is not taken.
pub proof fn law_free_name(h: Heap, es: Seq<NodeView>, preferred: Seq<char>)
    ensures
        !taken(h, es, free_name(h, es, preferred)),
{
    let n = variables(es).len();
    if forall|j: nat| j < n + 1 ==> #[trigger] taken(h, es, suffixed(preferred, j)) {
        lemma_bounded(h, es, preferred, n + 1);
    } else {
        let j = choose|j: nat| j < n + 1 && !(#[trigger] taken(h, es, suffixed(preferred, j)));
        let k = least_free(h, es, preferred, j);
        assert(first_free(h, es, preferred, k));
    }
}

proof fn least_free(h: Heap, es: Seq<NodeView>, preferred: Seq<char>, j: nat) -> (k: nat)
    requires
        !taken(h, es, suffixed(preferred, j)),
    ensures
        first_free(h, es, preferred, k),
    decreases j,
{
    if forall|i: nat| i < j ==> #[trigger] taken(h, es, suffixed(preferred, i)) {
        j
    } else {
        let i = choose|i: nat| i < j && !(#[trigger] taken(h, es, suffixed(preferred, i)));
        least_free(h, es, preferred, i)
    }
}

/// Whether the binds of a list are in the store.
pub open spec fn binds_present(h: Heap, bs: Seq<BindId>) -> bool {
    forall|i: int| 0 <= i < bs.len() ==> (#[trigger] bs[i]) < h.binds.len()
}

/// Copies of the binds `bs` with names that are not in use in `es`.
pub open spec fn renamed(h: Heap, bs: Seq<BindId>, es: Seq<NodeView>, polarity: Polarity) -> Seq<
    BindView,
> {
    bs.map_values(
        |b: BindId| plain_bind(free_name(h, es, h.binds[b as int].name), polarity),
    )
}

/// The heap with copies of the bindings whose names are not in use in `es`.
pub open spec fn with_renamed(
    h: Heap,
    bindings: Slots<BindId>,
    es: Seq<NodeView>,
    polarity: Polarity,
) -> Heap {
    Heap {
        binds: h.binds + renamed(h, bindings.params, es, polarity) + renamed(
            h,
            bindings.lets,
            es,
            polarity,
        ),
        ..h
    }
}

/// The copies of the bindings.
pub open spec fn renamed_slots(h: Heap, bindings: Slots<BindId>) -> Slots<BindId> {
    Slots {
        params: bind_ids(h.binds.len(), bindings.params.len()),
        lets: bind_ids(h.binds.len() + bindings.params.len(), bindings.lets.len()),
    }
}

/// Whether all binds of a list are in the store.
pub fn all_binds_present(store: &Store, bs: &Vec<BindId>) -> (r: bool)
    ensures
        r == binds_present(store@, bs@),
{
    let mut i: usize = 0;
    while i < bs.len()
        invariant
            i <= bs@.len(),
            forall|j: int| 0 <= j < i ==> (#[trigger] bs@[j]) < store@.binds.len(),
        decreases bs@.len() - i,
    {
        if !store.has_bind(bs[i]) {
            assert(!(bs@[i as int] < store@.binds.len()));
            return false;
        }
        i = i + 1;
    }
    true
}

/// Makes the copies of the binds, without adding them.
fn rename_all(store: &Store, bs: &Vec<BindId>, es: &ES, polarity: Polarity) -> (r: Vec<Bind>)
    requires
        binds_present(store@, bs@),
    ensures
        r@.map_values(|b: Bind| b.view()) == renamed(store@, bs@, es@, polarity),
{
    let ghost all = renamed(store@, bs@, es@, polarity);
    let mut r: Vec<Bind> = Vec::new();
    let mut i: usize = 0;
    assert(r@.map_values(|b: Bind| b.view()) =~= all.take(0));
    while i < bs.len()
        invariant
            i <= bs@.len(),
            binds_present(store@, bs@),
            all == renamed(store@, bs@, es@, polarity),
            r@.map_values(|b: Bind| b.view()) == all.take(i as int),
        decreases bs@.len() - i,
    {
        assert(bs@[i as int] < store@.binds.len());
        let ghost before = r@;
        let b = disambiguate_bind(store, &store.bind(bs[i]).name, es, polarity);
        r.push(b);
        proof {
            assert(all.take(i + 1) =~= all.take(i as int).push(all[i as int]));
            assert(r@.map_values(|b: Bind| b.view()) =~= before.map_values(
                |b: Bind| b.view(),
            ).push(b@));
        }
        i = i + 1;
    }
    assert(all.take(i as int) =~= all);
    r
}

/// Adds binds to the store.
fn add_all(store: &mut Store, bs: Vec<Bind>) -> (r: Vec<BindId>)
    ensures
        final(store)@ == (Heap {
            binds: old(store)@.binds + bs@.map_values(|b: Bind| b.view()),
            ..old(store)@
        }),
        r@ == bind_ids(old(store)@.binds.len(), bs@.len()),
{
    let ghost h = store@;
    let ghost given = bs@;
    let ghost views = given.map_values(|b: Bind| b.view());
    // Reverse the list, so that the binds can be taken from the end in their order.
    let mut bs = bs;
    let mut rest: Vec<Bind> = Vec::new();
    while bs.len() > 0
        invariant
            bs@.len() <= given.len(),
            bs@ == given.take(bs@.len() as int),
            rest@ == given.skip(bs@.len() as int).reverse(),
        decreases bs@.len(),
    {
        let ghost n = bs@.len() as int;
        match bs.pop() {
            None => {},
            Some(b) => {
                rest.push(b);
                assert(given.take(n).drop_last() =~= given.take(n - 1));
                assert(given.skip(n - 1).reverse() =~= given.skip(n).reverse().push(given[n - 1]));
            },
        }
    }
    assert(given.skip(0) =~= given);
    let mut r: Vec<BindId> = Vec::new();
    assert(h.binds =~= h.binds + views.take(0));
    while rest.len() > 0
        invariant
            rest@.len() + r@.len() == given.len(),
            views == given.map_values(|b: Bind| b.view()),
            rest@ == given.skip(r@.len() as int).reverse(),
            store@ == (Heap { binds: h.binds + views.take(r@.len() as int), ..h }),
            r@ == bind_ids(h.binds.len(), r@.len()),
        decreases rest@.len(),
    {
        let ghost k = r@.len() as int;
        assert(rest@[rest@.len() - 1] == given[k]);
        assert(given.skip(k).reverse().drop_last() =~= given.skip(k + 1).reverse());
        match rest.pop() {
            None => {},
            Some(b) => {
                let id: BindId = store.add_bind(b);
                r.push(id);
                proof {
                    assert(views.take(k + 1) =~= views.take(k).push(views[k]));
                    assert((h.binds + views.take(k)).push(views[k]) =~= h.binds + views.take(
                        k + 1,
                    ));
                    assert(bind_ids(h.binds.len(), (k + 1) as nat) =~= bind_ids(
                        h.binds.len(),
                        k as nat,
                    ).push(id));
                }
            },
        }
    }
    assert(views.take(given.len() as int) =~= views);
    r
}

/// Construct a copy of `bindings` such that the names are not already in `es`. There is none if a
/// bind is not in the store.
pub fn disambiguate(
    store: &mut Store,
    bindings: &Indexed<BindId>,
    es: &ES,
    polarity: Polarity,
) -> (r: Option<Rc<Indexed<BindId>>>)
    ensures
        match r {
            Some(copy) => {
                &&& binds_present(old(store)@, bindings@.params)
                &&& binds_present(old(store)@, bindings@.lets)
                &&& final(store)@ == with_renamed(old(store)@, bindings@, es@, polarity)
                &&& copy@ == renamed_slots(old(store)@, bindings@)
            },
            None => {
                &&& !(binds_present(old(store)@, bindings@.params) && binds_present(
                    old(store)@,
                    bindings@.lets,
                ))
                &&& final(store)@ == old(store)@
            },
        },
{
    if !all_binds_present(store, &bindings.params) || !all_binds_present(store, &bindings.lets) {
        return None;
    }
    let params: Vec<Bind> = rename_all(store, &bindings.params, es, polarity);
    let lets: Vec<Bind> = rename_all(store, &bindings.lets, es, polarity);
    let ghost ps = params@;
    let ghost ls = lets@;
    let param_ids: Vec<BindId> = add_all(store, params);
    let let_ids: Vec<BindId> = add_all(store, lets);
    proof {
        assert(ps.len() == ps.map_values(|b: Bind| b.view()).len());
        assert(ls.len() == ls.map_values(|b: Bind| b.view()).len());
    }
    Some(Rc::new(Indexed { params: param_ids, lets: let_ids }))
}

} // verus!
