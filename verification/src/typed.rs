//! From written types to types with De Bruijn indices.
use crate::data::{BindId, MetaId, NodeView, TypeBase, Var, ES};
use crate::elaborate::{
    body, escaping, extended_es, extension, law_body_sane, lemma_body_grows, new_bindings,
    progressed, var_key, ElabError, ElabErrorView, Progressed, VarSet,
};
use crate::es::{level, variables};
use crate::frames::sane;
use crate::ids::{next_u64, Fault, Ids, STRIDE};
use crate::index::{DeBruijn, DeBruijnIndex, Index, Indexed, Polarity};
use crate::ir::IRType;
use crate::memory::Store;
use std::rc::Rc;
use vstd::prelude::*;

verus! {

/// The view of a `TypeBase`.
#[verifier::ext_equal]
pub struct TbView {
    pub key: u64,
    pub codomain: MetaId,
    pub params: Seq<Option<TbView>>,
    pub lets: Seq<Option<TbView>>,
    pub codomain_mvars: Seq<Seq<usize>>,
    pub types_mvars: Seq<Seq<usize>>,
}

/// The contents of rows.
pub open spec fn row_views(rows: Seq<Vec<usize>>) -> Seq<Seq<usize>> {
    rows.map_values(|r: Vec<usize>| r@)
}

/// The view of a type base.
pub open spec fn tb_view(tb: TypeBase) -> TbView
    decreases tb, 0nat,
{
    TbView {
        key: tb.key,
        codomain: tb.codomain,
        params: part_views(tb.types.params@, tb.types.params@.len()),
        lets: part_views(tb.types.lets@, tb.types.lets@.len()),
        codomain_mvars: row_views(tb.codomain_mvars@),
        types_mvars: row_views(tb.types_mvars@),
    }
}

/// The views of the first `k` of the types.
pub open spec fn part_views(parts: Seq<Option<Rc<TypeBase>>>, k: nat) -> Seq<Option<TbView>>
    decreases parts, k,
{
    if k == 0 || k > parts.len() {
        Seq::empty()
    } else {
        part_views(parts, (k - 1) as nat).push(
            match parts[k - 1] {
                None => None,
                Some(tb) => Some(tb_view(*tb)),
            },
        )
    }
}

/// The positions of the parameters among the first `k` indices, in a row for each level.
pub open spec fn bucketed(indices: Seq<DeBruijnIndex>, k: nat, len: nat) -> Seq<Seq<usize>>
    decreases k,
{
    if k == 0 || k > indices.len() {
        Seq::new(len, |d: int| Seq::empty())
    } else {
        let rows = bucketed(indices, (k - 1) as nat, len);
        let d = indices[k - 1].0.0 as int;
        match indices[k - 1].1 {
            Index::Param(i) => rows.update(d, rows[d].push(i)),
            Index::Let(_) => rows,
        }
    }
}

pub proof fn lemma_bucketed_len(indices: Seq<DeBruijnIndex>, k: nat, len: nat)
    requires
        param_levels(indices, len),
    ensures
        bucketed(indices, k, len).len() == len,
    decreases k,
{
    if k > 0 && k <= indices.len() {
        lemma_bucketed_len(indices, (k - 1) as nat, len);
        assert(indices[k - 1].1 is Param ==> indices[k - 1].0.0 < len);
    }
}

/// Whether the level of each parameter among `indices` is under `len`.
pub open spec fn param_levels(indices: Seq<DeBruijnIndex>, len: nat) -> bool {
    forall|j: int|
        0 <= j < indices.len() ==> (#[trigger] indices[j]).1 is Param ==> indices[j].0.0 < len
}

/// The positions of the parameters among `indices`, in a row for each of `len` levels.
pub fn bucket(indices: &Vec<DeBruijnIndex>, len: usize) -> (r: Vec<Vec<usize>>)
    requires
        param_levels(indices@, len as nat),
    ensures
        row_views(r@) == bucketed(indices@, indices@.len(), len as nat),
{
    let mut buckets: Vec<Vec<usize>> = Vec::new();
    let mut i: usize = 0;
    while i < len
        invariant
            i <= len,
            row_views(buckets@) == Seq::new(i as nat, |d: int| Seq::<usize>::empty()),
        decreases len - i,
    {
        let ghost before = buckets@;
        buckets.push(Vec::new());
        i = i + 1;
        assert(row_views(buckets@) =~= row_views(before).push(Seq::<usize>::empty()));
        assert(Seq::new(i as nat, |d: int| Seq::<usize>::empty()) =~= Seq::new(
            (i - 1) as nat,
            |d: int| Seq::<usize>::empty(),
        ).push(Seq::<usize>::empty()));
    }
    let mut k: usize = 0;
    while k < indices.len()
        invariant
            k <= indices@.len(),
            param_levels(indices@, len as nat),
            row_views(buckets@) == bucketed(indices@, k as nat, len as nat),
            buckets@.len() == len,
        decreases indices@.len() - k,
    {
        proof {
            lemma_bucketed_len(indices@, k as nat, len as nat);
            assert(indices@[k as int].1 is Param ==> indices@[k as int].0.0 < len);
        }
        let ghost before = buckets@;
        match indices[k].1 {
            Index::Param(index) => {
                let d: usize = indices[k].0.0 as usize;
                buckets[d].push(index);
                assert(row_views(buckets@) =~= row_views(before).update(
                    d as int,
                    row_views(before)[d as int].push(index),
                ));
            },
            Index::Let(_) => {},
        }
        k = k + 1;
    }
    buckets
}

/// Which of the first `k` of `vars` are used.
pub open spec fn used_among(
    vars: Seq<(DeBruijnIndex, Var)>,
    used: Set<(u64, Index)>,
    k: nat,
) -> Seq<DeBruijnIndex>
    decreases k,
{
    if k == 0 || k > vars.len() {
        Seq::empty()
    } else if used.contains(var_key(vars[k - 1].1)) {
        used_among(vars, used, (k - 1) as nat).push(vars[k - 1].0)
    } else {
        used_among(vars, used, (k - 1) as nat)
    }
}

/// The positions of the parameters of `es` that are used, in a row for each level.
pub open spec fn used_rows(es: Seq<NodeView>, used: Set<(u64, Index)>) -> Seq<Seq<usize>> {
    let dbs = used_among(variables(es), used, variables(es).len());
    bucketed(dbs, dbs.len(), es.len())
}

pub proof fn lemma_levels(es: Seq<NodeView>, k: int)
    requires
        0 <= k,
    ensures
        forall|j: int|
            0 <= j < crate::es::vars_from(es, k).len() ==> (#[trigger] crate::es::vars_from(
                es,
                k,
            )[j]).0.0.0 < es.len(),
    decreases es.len() - k,
{
    if k < es.len() {
        lemma_levels(es, k + 1);
        let here = crate::es::level_vars(es, k);
        let rest = crate::es::vars_from(es, k + 1);
        assert forall|j: int| 0 <= j < (here + rest).len() implies (
        #[trigger] (here + rest)[j]).0.0.0 < es.len() by {
            if j < here.len() {
                assert((here + rest)[j] == here[j]);
                assert(here[j].0.0 == level(k));
            } else {
                assert((here + rest)[j] == rest[j - here.len()]);
            }
        }
    }
}

pub proof fn lemma_used_levels(
    vars: Seq<(DeBruijnIndex, Var)>,
    used: Set<(u64, Index)>,
    k: nat,
    len: nat,
)
    requires
        forall|j: int| 0 <= j < vars.len() ==> (#[trigger] vars[j]).0.0.0 < len,
    ensures
        forall|j: int|
            0 <= j < used_among(vars, used, k).len() ==> (#[trigger] used_among(
                vars,
                used,
                k,
            )[j]).0.0 < len,
    decreases k,
{
    if k > 0 && k <= vars.len() {
        lemma_used_levels(vars, used, (k - 1) as nat, len);
        assert(vars[k - 1].0.0.0 < len);
    }
}

/// The positions of the parameters of `es` that are used, in a row for each of its `len` levels.
fn find_used(es: &ES, used: &VarSet, len: usize) -> (r: Vec<Vec<usize>>)
    requires
        len == es@.len(),
    ensures
        row_views(r@) == used_rows(es@, used@),
{
    let items = es.iter();
    let ghost vars = variables(es@);
    let ghost proj = |x: (DeBruijnIndex, Rc<crate::data::Linked>, Var)| (x.0, x.2);
    assert(items@.map_values(proj) == vars);
    let mut dbs: Vec<DeBruijnIndex> = Vec::new();
    let mut i: usize = 0;
    while i < items.len()
        invariant
            i <= items@.len(),
            proj == (|x: (DeBruijnIndex, Rc<crate::data::Linked>, Var)| (x.0, x.2)),
            items@.map_values(proj) == vars,
            dbs@ == used_among(vars, used@, i as nat),
        decreases items@.len() - i,
    {
        assert(vars[i as int] == proj(items@[i as int]));
        if used.contains(&items[i].2) {
            dbs.push(items[i].0);
        }
        i = i + 1;
    }
    proof {
        assert(items@.len() == vars.len());
        lemma_levels(es@, 0);
        lemma_used_levels(vars, used@, vars.len(), es@.len());
    }
    bucket(&dbs, len)
}

/// A type in the context `es`. Gives the type base and the variables that are used, without those
/// that the type binds.
pub open spec fn typ(
    s: Progressed,
    t: IRType,
    es: Seq<NodeView>,
    polarity: Polarity,
) -> Result<(Progressed, TbView, Set<(u64, Index)>), ElabErrorView>
    decreases t, 0nat,
{
    let ces = extended_es(s, t.codomain.params@, t.codomain.lets@, es);
    match extension(s, t.codomain.params@, t.codomain.lets@, es, polarity.flipped()) {
        Err(e) => Err(e),
        Ok(s1) => match body(
            s1,
            t.codomain.spine,
            ces,
            new_bindings(s.heap, t.codomain.params@, t.codomain.lets@),
            polarity,
        ) {
            Err(e) => Err(e),
            Ok((s2, codomain, used)) => match typ_parts(
                s2,
                t.params@,
                ces,
                polarity.flipped(),
                t.params@.len(),
            ) {
                Err(e) => Err(e),
                Ok((s3, params, params_used)) => match typ_parts(
                    s3,
                    t.lets@,
                    ces,
                    polarity.flipped(),
                    t.lets@.len(),
                ) {
                    Err(e) => Err(e),
                    Ok((s4, lets, lets_used)) => {
                        let vars_used = params_used.union(lets_used);
                        if ces.len() > usize::MAX || s4.next + STRIDE > u64::MAX {
                            Err(ElabErrorView::Fault(Fault::Exhausted))
                        } else {
                            Ok(
                                (
                                    Progressed { next: (s4.next + STRIDE) as u64, ..s4 },
                                    TbView {
                                        key: s4.next,
                                        codomain,
                                        params,
                                        lets,
                                        codomain_mvars: used_rows(ces, used),
                                        types_mvars: used_rows(ces, vars_used),
                                    },
                                    escaping(
                                        used.union(vars_used),
                                        s.next,
                                        (s.next + STRIDE) as u64,
                                    ),
                                ),
                            )
                        }
                    },
                },
            },
        },
    }
}

/// The first `k` of the types in the context `es`.
pub open spec fn typ_parts(
    s: Progressed,
    parts: Seq<Option<IRType>>,
    es: Seq<NodeView>,
    polarity: Polarity,
    k: nat,
) -> Result<(Progressed, Seq<Option<TbView>>, Set<(u64, Index)>), ElabErrorView>
    decreases parts, k,
{
    if k == 0 || k > parts.len() {
        Ok((s, Seq::empty(), Set::empty()))
    } else {
        match typ_parts(s, parts, es, polarity, (k - 1) as nat) {
            Err(e) => Err(e),
            Ok((s1, made, used)) => match parts[k - 1] {
                None => Ok((s1, made.push(None), used)),
                Some(t) => match typ(s1, t, es, polarity) {
                    Err(e) => Err(e),
                    Ok((s2, tb, more)) => Ok((s2, made.push(Some(tb)), used.union(more))),
                },
            },
        }
    }
}

proof fn lemma_parts_fail(
    s: Progressed,
    parts: Seq<Option<IRType>>,
    es: Seq<NodeView>,
    polarity: Polarity,
    k: nat,
    n: nat,
)
    requires
        k <= n <= parts.len(),
        typ_parts(s, parts, es, polarity, k) is Err,
    ensures
        typ_parts(s, parts, es, polarity, n) == typ_parts(s, parts, es, polarity, k),
    decreases n - k,
{
    if k < n {
        lemma_parts_fail(s, parts, es, polarity, k, (n - 1) as nat);
    }
}

proof fn lemma_part_views_push(
    parts: Seq<Option<Rc<TypeBase>>>,
    more: Seq<Option<Rc<TypeBase>>>,
    k: nat,
)
    requires
        k <= parts.len() <= more.len(),
        forall|i: int| 0 <= i < parts.len() ==> #[trigger] more[i] == parts[i],
    ensures
        part_views(parts, k) == part_views(more, k),
    decreases k,
{
    if k > 0 {
        lemma_part_views_push(parts, more, (k - 1) as nat);
        assert(more[k - 1] == parts[k - 1]);
    }
}

/// The types in the context `es`.
fn to_parts(
    parts: &Vec<Option<IRType>>,
    store: &mut Store,
    es: &ES,
    polarity: Polarity,
    ids: &mut Ids,
    sites: &mut Vec<(BindId, ES)>,
) -> (r: Result<(Vec<Option<Rc<TypeBase>>>, VarSet), ElabError>)
    ensures
        typ_parts(
            progressed(*old(store), *old(ids), old(sites)@),
            parts@,
            es@,
            polarity,
            parts@.len(),
        ) == match r {
            Ok((made, used)) => Ok::<
                (Progressed, Seq<Option<TbView>>, Set<(u64, Index)>),
                ElabErrorView,
            >(
                (
                    progressed(*final(store), *final(ids), final(sites)@),
                    part_views(made@, made@.len()),
                    used@,
                ),
            ),
            Err(e) => Err(e@),
        },
    decreases parts@, parts@.len() + 1,
{
    let ghost s = progressed(*store, *ids, sites@);
    let mut made: Vec<Option<Rc<TypeBase>>> = Vec::new();
    let mut used = VarSet::new();
    let mut i: usize = 0;
    while i < parts.len()
        invariant
            i <= parts@.len(),
            s == progressed(*old(store), *old(ids), old(sites)@),
            typ_parts(s, parts@, es@, polarity, i as nat) == Ok::<
                (Progressed, Seq<Option<TbView>>, Set<(u64, Index)>),
                ElabErrorView,
            >((progressed(*store, *ids, sites@), part_views(made@, made@.len()), used@)),
        decreases parts@.len() - i,
    {
        let ghost before = made@;
        assert(decreases_to!(parts@ => parts@[i as int]));
        match &parts[i] {
            None => {
                made.push(None);
            },
            Some(t) => {
                match t.to_type(store, es, polarity, ids, sites) {
                    Err(e) => {
                        proof {
                            lemma_parts_fail(
                                s,
                                parts@,
                                es@,
                                polarity,
                                (i + 1) as nat,
                                parts@.len(),
                            );
                        }
                        return Err(e);
                    },
                    Ok((tb, more)) => {
                        made.push(Some(Rc::new(tb)));
                        used.extend(&more);
                    },
                }
            },
        }
        proof {
            lemma_part_views_push(before, made@, before.len());
        }
        i = i + 1;
    }
    Ok((made, used))
}

impl IRType {
    /// Creates a type from this one in the context `es`. Also gives the variables of the context
    /// that are used.
    pub fn to_type(
        &self,
        store: &mut Store,
        es: &ES,
        polarity: Polarity,
        ids: &mut Ids,
        sites: &mut Vec<(BindId, ES)>,
    ) -> (r: Result<(TypeBase, VarSet), ElabError>)
        ensures
            typ(progressed(*old(store), *old(ids), old(sites)@), *self, es@, polarity) == match r {
                Ok((tb, used)) => Ok::<(Progressed, TbView, Set<(u64, Index)>), ElabErrorView>(
                    (progressed(*final(store), *final(ids), final(sites)@), tb_view(tb), used@),
                ),
                Err(e) => Err(e@),
            },
        decreases self, 0nat,
    {
        let (codomain_es, bindings, params_id, lets_id) = match self.codomain.extend_es(
            store,
            es,
            polarity.opposite(),
            ids,
            sites,
        ) {
            Err(e) => {
                return Err(e);
            },
            Ok(x) => x,
        };
        let (codomain, mut used) = match self.codomain.spine.to_body(
            store,
            &codomain_es,
            bindings,
            polarity,
            ids,
            sites,
        ) {
            Err(e) => {
                return Err(e);
            },
            Ok(x) => x,
        };
        assert(decreases_to!(*self => self.params@));
        let (params, mut vars_used) = match to_parts(
            &self.params,
            store,
            &codomain_es,
            polarity.opposite(),
            ids,
            sites,
        ) {
            Err(e) => {
                return Err(e);
            },
            Ok(x) => x,
        };
        assert(decreases_to!(*self => self.lets@));
        let (lets, lets_used) = match to_parts(
            &self.lets,
            store,
            &codomain_es,
            polarity.opposite(),
            ids,
            sites,
        ) {
            Err(e) => {
                return Err(e);
            },
            Ok(x) => x,
        };
        vars_used.extend(&lets_used);
        let len: usize = match codomain_es.counted() {
            None => {
                return Err(ElabError::Fault(Fault::Exhausted));
            },
            Some(n) => n,
        };
        if !ids.ready() {
            return Err(ElabError::Fault(Fault::Exhausted));
        }
        let key: u64 = next_u64(ids);
        let codomain_mvars = find_used(&codomain_es, &used, len);
        let types_mvars = find_used(&codomain_es, &vars_used, len);
        used.extend(&vars_used);
        let tb = TypeBase {
            key,
            codomain,
            types: Indexed { params, lets },
            codomain_mvars,
            types_mvars,
        };
        Ok((tb, used.outside(params_id, lets_id)))
    }
}

/// The row of a level holds exactly the positions of the parameters at that level.
pub proof fn law_bucket_rows(indices: Seq<DeBruijnIndex>, len: nat, d: u32, i: usize)
    requires
        param_levels(indices, len),
        d < len,
    ensures
        bucketed(indices, indices.len(), len)[d as int].contains(i) <==> indices.contains(
            DeBruijnIndex(DeBruijn(d), Index::Param(i)),
        ),
{
    lemma_bucket_rows(indices, indices.len(), len, d, i);
    let x = DeBruijnIndex(DeBruijn(d), Index::Param(i));
    if indices.contains(x) {
        let j = choose|j: int| 0 <= j < indices.len() && indices[j] == x;
        assert(indices[j] == x);
    }
}

proof fn lemma_bucket_rows(indices: Seq<DeBruijnIndex>, k: nat, len: nat, d: u32, i: usize)
    requires
        param_levels(indices, len),
        d < len,
        k <= indices.len(),
    ensures
        bucketed(indices, k, len)[d as int].contains(i) <==> exists|j: int|
            0 <= j < k && #[trigger] indices[j] == DeBruijnIndex(DeBruijn(d), Index::Param(i)),
    decreases k,
{
    if k > 0 {
        lemma_bucket_rows(indices, (k - 1) as nat, len, d, i);
        lemma_bucketed_len(indices, (k - 1) as nat, len);
        let rows = bucketed(indices, (k - 1) as nat, len);
        let last = indices[k - 1];
        assert(last.1 is Param ==> last.0.0 < len);
        let x = DeBruijnIndex(DeBruijn(d), Index::Param(i));
        assert(last == DeBruijnIndex(DeBruijn(last.0.0), last.1));
        if let Index::Param(at) = last.1 {
            let row = rows[d as int];
            if last.0.0 == d {
                let new = row.push(at);
                if row.contains(i) {
                    let p = choose|p: int| 0 <= p < row.len() && row[p] == i;
                    assert(new[p] == i);
                }
                if at == i {
                    assert(new[row.len() as int] == i);
                    assert(indices[k - 1] == x);
                }
                if new.contains(i) {
                    let p = choose|p: int| 0 <= p < new.len() && new[p] == i;
                    if p < row.len() {
                        assert(row[p] == i);
                    }
                }
            }
        }
        if exists|j: int| 0 <= j < k - 1 && #[trigger] indices[j] == x {
            let j = choose|j: int| 0 <= j < k - 1 && #[trigger] indices[j] == x;
            assert(0 <= j < k && indices[j] == x);
        }
    }
}

/// Elaborating a type keeps the references within the heap in order, and the codomain is in the
/// heap.
pub proof fn law_type_sane(s: Progressed, t: IRType, es: Seq<NodeView>, polarity: Polarity)
    requires
        sane(s.heap),
    ensures
        typ(s, t, es, polarity) matches Ok((s2, tb, _)) ==> (s2.heap.metas.len() <= usize::MAX
            ==> sane(s2.heap) && tb.codomain < s2.heap.metas.len()),
        typ(s, t, es, polarity) matches Ok((s2, _, _)) ==> s.heap.metas.len() <= s2.heap.metas.len(),
    decreases t, 0nat,
{
    let ces = extended_es(s, t.codomain.params@, t.codomain.lets@, es);
    if let Ok(s1) = extension(s, t.codomain.params@, t.codomain.lets@, es, polarity.flipped()) {
        let bindings = new_bindings(s.heap, t.codomain.params@, t.codomain.lets@);
        assert(s1.heap.metas == s.heap.metas);
        assert(sane(s1.heap));
        law_body_sane(s1, t.codomain.spine, ces, bindings, polarity);
        lemma_body_grows(s1, t.codomain.spine, ces, bindings, polarity);
        if let Ok((s2, codomain, used)) = body(s1, t.codomain.spine, ces, bindings, polarity) {
            if s2.heap.metas.len() <= usize::MAX {
                lemma_parts_sane(s2, t.params@, ces, polarity.flipped(), t.params@.len());
                if let Ok((s3, _, _)) = typ_parts(
                    s2,
                    t.params@,
                    ces,
                    polarity.flipped(),
                    t.params@.len(),
                ) {
                    if s3.heap.metas.len() <= usize::MAX {
                        lemma_parts_sane(s3, t.lets@, ces, polarity.flipped(), t.lets@.len());
                    } else {
                        lemma_parts_grow(s3, t.lets@, ces, polarity.flipped(), t.lets@.len());
                    }
                }
            } else {
                lemma_parts_grow(s2, t.params@, ces, polarity.flipped(), t.params@.len());
                if let Ok((s3, _, _)) = typ_parts(
                    s2,
                    t.params@,
                    ces,
                    polarity.flipped(),
                    t.params@.len(),
                ) {
                    lemma_parts_grow(s3, t.lets@, ces, polarity.flipped(), t.lets@.len());
                }
            }
        }
    }
}

pub proof fn lemma_type_grows(s: Progressed, t: IRType, es: Seq<NodeView>, polarity: Polarity)
    ensures
        typ(s, t, es, polarity) matches Ok((s2, _, _)) ==> s.heap.metas.len() <= s2.heap.metas.len(),
    decreases t, 0nat,
{
    let ces = extended_es(s, t.codomain.params@, t.codomain.lets@, es);
    if let Ok(s1) = extension(s, t.codomain.params@, t.codomain.lets@, es, polarity.flipped()) {
        let bindings = new_bindings(s.heap, t.codomain.params@, t.codomain.lets@);
        lemma_body_grows(s1, t.codomain.spine, ces, bindings, polarity);
        if let Ok((s2, _, _)) = body(s1, t.codomain.spine, ces, bindings, polarity) {
            lemma_parts_grow(s2, t.params@, ces, polarity.flipped(), t.params@.len());
            if let Ok((s3, _, _)) = typ_parts(
                s2,
                t.params@,
                ces,
                polarity.flipped(),
                t.params@.len(),
            ) {
                lemma_parts_grow(s3, t.lets@, ces, polarity.flipped(), t.lets@.len());
            }
        }
    }
}

pub proof fn lemma_parts_grow(
    s: Progressed,
    parts: Seq<Option<IRType>>,
    es: Seq<NodeView>,
    polarity: Polarity,
    k: nat,
)
    ensures
        typ_parts(s, parts, es, polarity, k) matches Ok((s2, _, _)) ==> s.heap.metas.len()
            <= s2.heap.metas.len(),
    decreases parts, k,
{
    if k > 0 && k <= parts.len() {
        lemma_parts_grow(s, parts, es, polarity, (k - 1) as nat);
        if let Ok((s1, _, _)) = typ_parts(s, parts, es, polarity, (k - 1) as nat) {
            if let Some(t) = parts[k - 1] {
                lemma_type_grows(s1, t, es, polarity);
            }
        }
    }
}

proof fn lemma_parts_sane(
    s: Progressed,
    parts: Seq<Option<IRType>>,
    es: Seq<NodeView>,
    polarity: Polarity,
    k: nat,
)
    requires
        sane(s.heap),
    ensures
        typ_parts(s, parts, es, polarity, k) matches Ok((s2, _, _)) ==> (s2.heap.metas.len()
            <= usize::MAX ==> sane(s2.heap)),
        typ_parts(s, parts, es, polarity, k) matches Ok((s2, _, _)) ==> s.heap.metas.len()
            <= s2.heap.metas.len(),
    decreases parts, k,
{
    lemma_parts_grow(s, parts, es, polarity, k);
    if k > 0 && k <= parts.len() {
        lemma_parts_sane(s, parts, es, polarity, (k - 1) as nat);
        if let Ok((s1, _, _)) = typ_parts(s, parts, es, polarity, (k - 1) as nat) {
            if let Some(t) = parts[k - 1] {
                lemma_type_grows(s1, t, es, polarity);
                if s1.heap.metas.len() <= usize::MAX {
                    law_type_sane(s1, t, es, polarity);
                }
            }
        }
    }
}

} // verus!
