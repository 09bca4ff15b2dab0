//! Explicit substitutions.
use crate::data::{
    nodes, BindId, Entry, EntryView, Linked, MetaId, Node, NodeView, Subst, SubstView, Var, ES,
};
use crate::ids::{next_u64, Ids, STRIDE};
use crate::index::{DeBruijn, DeBruijnIndex, Index, Indexed, Slots};
use crate::memory::{Heap, Store};
use std::rc::Rc;
use vstd::prelude::*;

verus! {

impl Entry {
    /// Creates a substitution entry.
    pub fn subst(subst: Subst, ids: &mut Ids) -> (r: Entry)
        requires
            old(ids).next + 2 * STRIDE <= u64::MAX,
        ensures
            r@ == subst_entry(subst@, old(ids).next),
            final(ids).next == old(ids).next + 2 * STRIDE,
    {
        let params_id: u64 = next_u64(ids);
        let lets_id: u64 = next_u64(ids);
        Entry { params_id, lets_id, subst: Some(subst), context: None }
    }

    /// Creates a variable entry.
    pub fn vars(params_id: u64, ids: &mut Ids) -> (r: Entry)
        requires
            old(ids).can_draw(),
        ensures
            r@ == vars_entry(params_id, old(ids).next),
            final(ids).next == old(ids).next + STRIDE,
    {
        let lets_id: u64 = next_u64(ids);
        Entry { params_id, lets_id, subst: None, context: None }
    }
}

/// The entry that substitutes `subst`, with identifiers from `next` on.
pub open spec fn subst_entry(subst: SubstView, next: u64) -> EntryView {
    EntryView {
        params_id: next,
        lets_id: (next + STRIDE) as u64,
        subst: Some(subst),
        context: None,
    }
}

/// The entry that substitutes nothing, with the given identifiers.
pub open spec fn vars_entry(params_id: u64, lets_id: u64) -> EntryView {
    EntryView { params_id, lets_id, subst: None, context: None }
}

/// The explicit substitution `es` with `node` before it. A node without bindings is left out.
pub open spec fn appended(es: Seq<NodeView>, node: NodeView) -> Seq<NodeView> {
    if node.bindings.none() {
        es
    } else {
        seq![node] + es
    }
}

/// The number of links made to append `node`.
pub open spec fn links(bindings: Slots<BindId>) -> nat {
    if bindings.none() {
        0
    } else {
        1
    }
}

/// The identifier under which the variables of `node` at `index` are known.
pub open spec fn entry_id(node: NodeView, index: Index) -> u64 {
    match index {
        Index::Param(_) => node.entry.params_id,
        Index::Let(_) => node.entry.lets_id,
    }
}

/// The variable of `node` at `index`.
pub open spec fn var_at(node: NodeView, index: Index) -> Var {
    Var { entry_id: entry_id(node, index), index, bind: node.bindings.at(index) }
}

/// The De Bruijn index of level `k`.
pub open spec fn level(k: int) -> DeBruijn {
    DeBruijn((k % 0x1_0000_0000) as u32)
}

/// The variables of level `k` of `es`, in iteration order.
pub open spec fn level_vars(es: Seq<NodeView>, k: int) -> Seq<(DeBruijnIndex, Var)> {
    es[k].bindings.order().map_values(
        |index: Index| (DeBruijnIndex(level(k), index), var_at(es[k], index)),
    )
}

/// The variables of `es` from level `k` on, in iteration order.
pub open spec fn vars_from(es: Seq<NodeView>, k: int) -> Seq<(DeBruijnIndex, Var)>
    decreases es.len() - k,
{
    if 0 <= k < es.len() {
        level_vars(es, k) + vars_from(es, k + 1)
    } else {
        Seq::empty()
    }
}

/// The variables of `es`, in iteration order.
pub open spec fn variables(es: Seq<NodeView>) -> Seq<(DeBruijnIndex, Var)> {
    vars_from(es, 0)
}

/// The level of each variable of `es` from level `k` on, in iteration order.
pub open spec fn depths_from(es: Seq<NodeView>, k: int) -> Seq<int>
    decreases es.len() - k,
{
    if 0 <= k < es.len() {
        Seq::new(es[k].bindings.order().len(), |x: int| k) + depths_from(es, k + 1)
    } else {
        Seq::empty()
    }
}

/// The level of each variable of `es`, in iteration order.
pub open spec fn depths(es: Seq<NodeView>) -> Seq<int> {
    depths_from(es, 0)
}

/// Whether `l` is the list of the levels of `es` from `d` on.
pub open spec fn starts_at(es: Seq<NodeView>, l: Rc<Linked>, d: int) -> bool {
    0 <= d < es.len() && nodes(Some(l)) == es.skip(d)
}

/// Whether the bind `b` has the given name.
pub open spec fn named(h: Heap, b: BindId, name: Seq<char>) -> bool {
    b < h.binds.len() && h.binds[b as int].name == name
}

/// The first of the variables `vars` from `k` on whose bind has the given name.
pub open spec fn first_named(
    h: Heap,
    vars: Seq<(DeBruijnIndex, Var)>,
    name: Seq<char>,
    k: int,
) -> Option<(DeBruijnIndex, Var)>
    decreases vars.len() - k,
{
    if 0 <= k < vars.len() {
        if named(h, vars[k].1.bind, name) {
            Some(vars[k])
        } else {
            first_named(h, vars, name, k + 1)
        }
    } else {
        None
    }
}

/// Whether row `k` of `indices` can be looked up in level `k` of `es`: where it is not empty
/// there is a substitution, which holds every index of it.
pub open spec fn row_fits(es: Seq<NodeView>, row: Seq<usize>, k: int) -> bool {
    row.len() > 0 ==> es[k].entry.subst is Some && forall|j: int|
        0 <= j < row.len() ==> #[trigger] row[j] < es[k].entry.subst->0.args.len()
}

/// Whether `indices` can be looked up in `es`: it has one row for each level, and each fits.
pub open spec fn fits(es: Seq<NodeView>, indices: Seq<Vec<usize>>) -> bool {
    &&& es.len() == indices.len()
    &&& forall|k: int| 0 <= k < es.len() ==> row_fits(es, #[trigger] indices[k]@, k)
}

/// The terms that a row of indices picks from level `k` of `es`.
pub open spec fn picked(es: Seq<NodeView>, row: Seq<usize>, k: int) -> Seq<MetaId> {
    row.map_values(|j: usize| es[k].entry.subst->0.args[j as int])
}

/// The terms that the first `k` rows of `indices` pick from `es`.
pub open spec fn gathered(es: Seq<NodeView>, indices: Seq<Vec<usize>>, k: int) -> Seq<MetaId>
    decreases k,
{
    if k <= 0 {
        Seq::empty()
    } else {
        gathered(es, indices, k - 1) + picked(es, indices[k - 1]@, k - 1)
    }
}

/// The metavariables that occur in the types of the variables of the node.
pub open spec fn node_involved(node: NodeView) -> Seq<MetaId> {
    match node.entry.context {
        None => Seq::empty(),
        Some(t) => gathered(t.es, t.base.types_mvars@, t.es.len() as int),
    }
}

/// Whether the lookups for the types of the variables of the node can be made.
pub open spec fn node_fits(node: NodeView) -> bool {
    node.entry.context matches Some(t) ==> fits(t.es, t.base.types_mvars@)
}

/// The metavariables that occur in the types of the variables of the first `k` nodes.
pub open spec fn context_involved(es: Seq<NodeView>, k: int) -> Seq<MetaId>
    decreases k,
{
    if k <= 0 {
        Seq::empty()
    } else {
        context_involved(es, k - 1) + node_involved(es[k - 1])
    }
}

/// Whether the lookups for the types of all variables of `es` can be made.
pub open spec fn context_fits(es: Seq<NodeView>) -> bool {
    forall|k: int| 0 <= k < es.len() ==> node_fits(#[trigger] es[k])
}

/// The nodes after the first `k` are the nodes of the tail.
proof fn lemma_skip_tail(l: Rc<Linked>)
    ensures
        nodes(Some(l)).len() == 1 + nodes(l.tail).len(),
        nodes(Some(l))[0] == l.node@,
        nodes(Some(l)).skip(1) == nodes(l.tail),
        forall|k: int|
            0 <= k < nodes(l.tail).len() ==> #[trigger] nodes(l.tail)[k] == nodes(Some(l))[k + 1],
{
    assert(nodes(Some(l)).skip(1) =~= nodes(l.tail));
}

impl ES {
    /// An empty explicit substitution.
    pub fn new() -> (r: ES)
        ensures
            r@ == Seq::<NodeView>::empty(),
    {
        ES { linked: None }
    }

    /// Append a `Node` to the explicit substitution. A link that is made is added to
    /// `owned_linked`.
    pub fn append(&self, node: Node, owned_linked: &mut Vec<Rc<Linked>>) -> (r: ES)
        ensures
            r@ == appended(self@, node@),
            node@.bindings.none() ==> r == *self && final(owned_linked)@ == old(owned_linked)@,
            !node@.bindings.none() ==> r.linked is Some && final(owned_linked)@ == old(
                owned_linked,
            )@.push(r.linked->0),
    {
        // Zero-size optimization, when nothing needs to be added.
        if node.bindings.is_empty() {
            return self.clone();
        }
        let tail = self.clone();
        let link = Rc::new(Linked { tail: tail.linked, node });
        owned_linked.push(link.clone());
        ES { linked: Some(link) }
    }

    /// Returns the sublist rooted at node `db`.
    pub fn sub_es(&self, db: DeBruijn) -> (r: ES)
        requires
            db.0 < self@.len(),
        ensures
            r@ == self@.skip(db.0 as int),
    {
        let mut curr: ES = self.clone();
        let mut i: u32 = 0;
        assert(self@ =~= self@.skip(0));
        while i < db.0
            invariant
                i <= db.0,
                db.0 < self@.len(),
                curr@ == self@.skip(i as int),
            decreases db.0 - i,
        {
            let rest = match &curr.linked {
                None => ES { linked: None },
                Some(l) => {
                    proof {
                        lemma_skip_tail(*l);
                        assert(self@.skip(i as int).skip(1) =~= self@.skip(i + 1));
                    }
                    ES {
                        linked: match &l.tail {
                            None => None,
                            Some(t) => Some(t.clone()),
                        },
                    }
                },
            };
            curr = rest;
            i = i + 1;
        }
        curr
    }

    /// Whether there are more than `n` nodes.
    pub fn longer_than(&self, n: u32) -> (r: bool)
        ensures
            r == (self@.len() > n),
    {
        let mut curr: &Option<Rc<Linked>> = &self.linked;
        let mut i: u32 = 0;
        loop
            invariant
                i <= n,
                self@.len() == i + nodes(*curr).len(),
            decreases n - i,
        {
            match curr {
                None => {
                    return false;
                },
                Some(l) => {
                    proof {
                        lemma_skip_tail(*l);
                    }
                    if i == n {
                        return true;
                    }
                    i = i + 1;
                    curr = &l.tail;
                },
            }
        }
    }

    /// The node at the root.
    pub fn root(&self) -> (r: &Node)
        requires
            self@.len() > 0,
        ensures
            r@ == self@[0],
    {
        let l: &Rc<Linked> = self.linked.as_ref().unwrap();
        &l.node
    }

    /// Gets the variable at the root of this ES at the given `index`
    pub fn get_var(&self, index: Index) -> (r: Var)
        requires
            self@.len() > 0,
            self@[0].bindings.has(index),
        ensures
            r == var_at(self@[0], index),
    {
        self.root().get_var(index)
    }

    /// Returns the `DeBruijnIndex`es in this `ES`, along with the `Linked` they are rooted at.
    pub fn iter(&self) -> (r: Vec<(DeBruijnIndex, Rc<Linked>, Var)>)
        ensures
            r@.map_values(|x: (DeBruijnIndex, Rc<Linked>, Var)| (x.0, x.2)) == variables(self@),
            r@.len() == depths(self@).len(),
            forall|k: int|
                0 <= k < r@.len() ==> starts_at(
                    self@,
                    (#[trigger] r@[k]).1,
                    depths(self@)[k],
                ),
    {
        let mut result: Vec<(DeBruijnIndex, Rc<Linked>, Var)> = Vec::new();
        let mut curr: &Option<Rc<Linked>> = &self.linked;
        let mut db: u32 = 0;
        let ghost mut d: int = 0;
        let ghost proj = |x: (DeBruijnIndex, Rc<Linked>, Var)| (x.0, x.2);
        assert(self@ =~= self@.skip(0));
        assert(result@.map_values(proj) + vars_from(self@, 0) =~= variables(self@));
        let ghost mut ds: Seq<int> = Seq::empty();
        assert(ds + depths_from(self@, 0) =~= depths(self@));
        while curr.is_some()
            invariant
                0 <= d <= self@.len(),
                db == d % 0x1_0000_0000,
                nodes(*curr) == self@.skip(d),
                proj == (|x: (DeBruijnIndex, Rc<Linked>, Var)| (x.0, x.2)),
                result@.map_values(proj) + vars_from(self@, d) == variables(self@),
                ds.len() == result@.len(),
                ds + depths_from(self@, d) == depths(self@),
                forall|k: int|
                    0 <= k < result@.len() ==> starts_at(
                        self@,
                        (#[trigger] result@[k]).1,
                        ds[k],
                    ),
            decreases self@.len() - d,
        {
            let l: &Rc<Linked> = curr.as_ref().unwrap();
            proof {
                lemma_skip_tail(*l);
                assert(self@.skip(d)[0] == self@[d]);
                assert(self@.skip(d).skip(1) =~= self@.skip(d + 1));
            }
            let indices: Vec<Index> = Indexed::iter(&l.node.bindings);
            let ghost before = result@.map_values(proj);
            let ghost ds_before = ds;
            let mut j: usize = 0;
            assert(before =~= before + level_vars(self@, d).take(0));
            while j < indices.len()
                invariant
                    j <= indices@.len(),
                    0 <= d < self@.len(),
                    db == d % 0x1_0000_0000,
                    nodes(Some(*l)) == self@.skip(d),
                    l.node@ == self@[d],
                    indices@ == self@[d].bindings.order(),
                    l.node.bindings@ == self@[d].bindings,
                    proj == (|x: (DeBruijnIndex, Rc<Linked>, Var)| (x.0, x.2)),
                    result@.map_values(proj) == before + level_vars(self@, d).take(j as int),
                    ds.len() == result@.len(),
                    ds == ds_before + Seq::new(j as nat, |x: int| d),
                    forall|k: int|
                        0 <= k < result@.len() ==> starts_at(
                        self@,
                        (#[trigger] result@[k]).1,
                        ds[k],
                    ),
                decreases indices@.len() - j,
            {
                let index: Index = indices[j];
                proof {
                    crate::index::law_order_complete(self@[d].bindings, index);
                    assert(self@[d].bindings.order()[j as int] == index);
                }
                let var: Var = l.node.get_var(index);
                let item = (DeBruijnIndex(DeBruijn(db), index), l.clone(), var);
                let ghost old_result = result@;
                result.push(item);
                proof {
                    assert(proj(item) == level_vars(self@, d)[j as int]);
                    assert(result@.map_values(proj) =~= old_result.map_values(proj).push(
                        proj(item),
                    ));
                    assert(level_vars(self@, d).take(j + 1) =~= level_vars(self@, d).take(
                        j as int,
                    ).push(level_vars(self@, d)[j as int]));
                    ds = ds.push(d);
                    assert(Seq::new((j + 1) as nat, |x: int| d) =~= Seq::new(
                        j as nat,
                        |x: int| d,
                    ).push(d));
                }
                j = j + 1;
            }
            proof {
                assert(level_vars(self@, d).take(j as int) =~= level_vars(self@, d));
                assert(result@.map_values(proj) + vars_from(self@, d + 1) =~= before + (
                level_vars(self@, d) + vars_from(self@, d + 1)));
                assert(ds + depths_from(self@, d + 1) =~= ds_before + depths_from(self@, d));
                d = d + 1;
            }
            curr = &l.tail;
            db = db.wrapping_add(1);
        }
        proof {
            assert(result@.map_values(proj) =~= result@.map_values(proj) + vars_from(self@, d));
            assert(ds =~= ds + depths_from(self@, d));
        }
        result
    }

    /// Finds the `DeBruijnIndex` and variable with a certain `name` in this `ES`.
    pub fn index_of(&self, store: &Store, name: &String) -> (r: Option<(DeBruijnIndex, Var)>)
        ensures
            r == first_named(store@, variables(self@), name@, 0),
    {
        let items = self.iter();
        let ghost proj = |x: (DeBruijnIndex, Rc<Linked>, Var)| (x.0, x.2);
        let ghost vars = variables(self@);
        let mut i: usize = 0;
        while i < items.len()
            invariant
                i <= items@.len(),
                proj == (|x: (DeBruijnIndex, Rc<Linked>, Var)| (x.0, x.2)),
                vars == items@.map_values(proj),
                vars == variables(self@),
                first_named(store@, vars, name@, 0) == first_named(store@, vars, name@, i as int),
            decreases items@.len() - i,
        {
            let db: DeBruijnIndex = items[i].0;
            let var: Var = items[i].2;
            assert(vars[i as int] == (db, var));
            if store.has_bind(var.bind) && store.bind(var.bind).name == *name {
                return Some((db, var));
            }
            i = i + 1;
        }
        None
    }

    /// The number of `Linked` nodes (explicit-substitution entries) in this `ES`.
    pub fn length(&self) -> (r: usize)
        requires
            self@.len() <= usize::MAX,
        ensures
            r == self@.len(),
    {
        let mut n: usize = 0;
        let mut curr: &Option<Rc<Linked>> = &self.linked;
        while curr.is_some()
            invariant
                self@.len() <= usize::MAX,
                n + nodes(*curr).len() == self@.len(),
            decreases nodes(*curr).len(),
        {
            let l: &Rc<Linked> = curr.as_ref().unwrap();
            proof {
                lemma_skip_tail(*l);
            }
            n = n + 1;
            curr = &l.tail;
        }
        n
    }

    /// The number of `Linked` nodes, if it can be counted.
    pub fn counted(&self) -> (r: Option<usize>)
        ensures
            match r {
                Some(n) => n == self@.len(),
                None => self@.len() > usize::MAX,
            },
    {
        let mut n: usize = 0;
        let mut curr: &Option<Rc<Linked>> = &self.linked;
        while curr.is_some()
            invariant
                n + nodes(*curr).len() == self@.len(),
            decreases nodes(*curr).len(),
        {
            let l: &Rc<Linked> = curr.as_ref().unwrap();
            proof {
                lemma_skip_tail(*l);
            }
            if n == usize::MAX {
                return None;
            }
            n = n + 1;
            curr = &l.tail;
        }
        Some(n)
    }

    /// Whether `indices` can be looked up.
    pub fn can_get_many(&self, indices: &Vec<Vec<usize>>) -> (r: bool)
        ensures
            r == fits(self@, indices@),
    {
        let mut curr: &Option<Rc<Linked>> = &self.linked;
        let mut i: usize = 0;
        assert(self@ =~= self@.skip(0));
        while curr.is_some()
            invariant
                i <= indices@.len(),
                i <= self@.len(),
                nodes(*curr) == self@.skip(i as int),
                forall|k: int| 0 <= k < i ==> row_fits(self@, #[trigger] indices@[k]@, k),
            decreases self@.len() - i,
        {
            let l: &Rc<Linked> = curr.as_ref().unwrap();
            proof {
                lemma_skip_tail(*l);
                assert(self@.skip(i as int)[0] == self@[i as int]);
                assert(self@.skip(i as int).skip(1) =~= self@.skip(i + 1));
            }
            if i == indices.len() {
                return false;
            }
            let row: &Vec<usize> = &indices[i];
            if row.len() > 0 {
                match &l.node.entry.subst {
                    None => {
                        assert(!row_fits(self@, indices@[i as int]@, i as int));
                        return false;
                    },
                    Some(subst) => {
                        let mut j: usize = 0;
                        while j < row.len()
                            invariant
                                j <= row@.len(),
                                i < indices@.len(),
                                i < self@.len(),
                                row@ == indices@[i as int]@,
                                self@[i as int].entry.subst == Some(subst@),
                                forall|q: int|
                                    0 <= q < j ==> #[trigger] row@[q] < subst@.args.len(),
                            decreases row@.len() - j,
                        {
                            if row[j] >= subst.0.len() {
                                assert(!row_fits(self@, indices@[i as int]@, i as int));
                                return false;
                            }
                            j = j + 1;
                        }
                    },
                }
            }
            assert(row_fits(self@, indices@[i as int]@, i as int));
            i = i + 1;
            curr = &l.tail;
        }
        i == indices.len()
    }

    /// The terms that `indices` picks: row `k` lists indices into the substitution of level `k`.
    pub fn get_many(&self, indices: &Vec<Vec<usize>>) -> (r: Vec<MetaId>)
        requires
            fits(self@, indices@),
        ensures
            r@ == gathered(self@, indices@, self@.len() as int),
    {
        let mut result: Vec<MetaId> = Vec::new();
        let mut curr: &Option<Rc<Linked>> = &self.linked;
        let mut i: usize = 0;
        assert(self@ =~= self@.skip(0));
        while curr.is_some()
            invariant
                i <= self@.len(),
                i <= indices@.len(),
                fits(self@, indices@),
                nodes(*curr) == self@.skip(i as int),
                result@ == gathered(self@, indices@, i as int),
            decreases self@.len() - i,
        {
            let l: &Rc<Linked> = curr.as_ref().unwrap();
            proof {
                lemma_skip_tail(*l);
                assert(self@.skip(i as int)[0] == self@[i as int]);
                assert(self@.skip(i as int).skip(1) =~= self@.skip(i + 1));
                assert(row_fits(self@, indices@[i as int]@, i as int));
            }
            let row: &Vec<usize> = &indices[i];
            let ghost before = result@;
            let ghost mine = picked(self@, row@, i as int);
            assert(before =~= before + mine.take(0));
            if row.len() > 0 {
                if let Some(subst) = &l.node.entry.subst {
                    let mut j: usize = 0;
                    while j < row.len()
                        invariant
                            j <= row@.len(),
                            i < self@.len(),
                            row@ == indices@[i as int]@,
                            row_fits(self@, row@, i as int),
                            self@[i as int].entry.subst == Some(subst@),
                            mine == picked(self@, row@, i as int),
                            result@ == before + mine.take(j as int),
                        decreases row@.len() - j,
                    {
                        result.push(subst.0[row[j]]);
                        assert(mine.take(j + 1) =~= mine.take(j as int).push(mine[j as int]));
                        j = j + 1;
                    }
                }
            }
            assert(mine.take(row@.len() as int) =~= mine);
            assert(gathered(self@, indices@, i + 1) == before + mine);
            assert(i < indices.len());
            i = i + 1;
            curr = &l.tail;
        }
        result
    }

    /// Whether the lookups for the types of all variables can be made.
    pub fn can_involve(&self) -> (r: bool)
        ensures
            r == context_fits(self@),
    {
        let mut curr: &Option<Rc<Linked>> = &self.linked;
        let ghost mut i: int = 0;
        assert(self@ =~= self@.skip(0));
        while curr.is_some()
            invariant
                0 <= i <= self@.len(),
                nodes(*curr) == self@.skip(i),
                forall|k: int| 0 <= k < i ==> node_fits(#[trigger] self@[k]),
            decreases self@.len() - i,
        {
            let l: &Rc<Linked> = curr.as_ref().unwrap();
            proof {
                lemma_skip_tail(*l);
                assert(self@.skip(i)[0] == self@[i]);
                assert(self@.skip(i).skip(1) =~= self@.skip(i + 1));
            }
            if let Some(typ) = &l.node.entry.context {
                if !typ.1.can_get_many(&typ.0.types_mvars) {
                    assert(!node_fits(self@[i]));
                    return false;
                }
            }
            proof {
                i = i + 1;
            }
            curr = &l.tail;
        }
        true
    }

    /// The metavariables that occur in the types of the variables.
    pub fn involved(&self) -> (r: Vec<MetaId>)
        requires
            context_fits(self@),
        ensures
            r@ == context_involved(self@, self@.len() as int),
    {
        let mut result: Vec<MetaId> = Vec::new();
        let mut curr: &Option<Rc<Linked>> = &self.linked;
        let ghost mut i: int = 0;
        assert(self@ =~= self@.skip(0));
        while curr.is_some()
            invariant
                0 <= i <= self@.len(),
                context_fits(self@),
                nodes(*curr) == self@.skip(i),
                result@ == context_involved(self@, i),
            decreases self@.len() - i,
        {
            let l: &Rc<Linked> = curr.as_ref().unwrap();
            proof {
                lemma_skip_tail(*l);
                assert(self@.skip(i)[0] == self@[i]);
                assert(self@.skip(i).skip(1) =~= self@.skip(i + 1));
                assert(node_fits(self@[i]));
            }
            if let Some(typ) = &l.node.entry.context {
                let mut more: Vec<MetaId> = typ.1.get_many(&typ.0.types_mvars);
                result.append(&mut more);
            }
            assert(context_involved(self@, i + 1) =~= result@);
            proof {
                i = i + 1;
            }
            curr = &l.tail;
        }
        result
    }
}

impl Node {
    /// The variable of this node at `index`.
    pub fn get_var(&self, index: Index) -> (r: Var)
        requires
            self@.bindings.has(index),
        ensures
            r == var_at(self@, index),
    {
        let entry_id: u64 = match index {
            Index::Param(_) => self.entry.params_id,
            Index::Let(_) => self.entry.lets_id,
        };
        Var { bind: *self.bindings.index(index), index, entry_id }
    }
}

} // verus!
