//! Types, and the metavariables that stand for their parameters.
use crate::data::{
    BindId, Entry, EntryView, Linked, Meta, MetaId, MetaView, Node, NodeView, Term, TermView,
    Type, TypeBase, TypeView, ES,
};
use crate::es::{appended, links};
use crate::index::{Index, Slots};
use crate::memory::{Heap, Store};
use std::rc::Rc;
use vstd::prelude::*;

verus! {

/// An unassigned metavariable without a type.
pub open spec fn blank(bindings: Slots<BindId>, parent: Option<MetaId>) -> MetaView {
    MetaView {
        assignment: None,
        gamma: Seq::empty(),
        constraints: Seq::empty(),
        typ: None,
        bindings,
        from_original_problem: false,
        had_rigid_equation: false,
        parent,
    }
}

/// The type base of `tb` at `index`, where there is one.
pub open spec fn part(tb: TypeBase, index: Index) -> Option<Rc<TypeBase>> {
    tb.types@.at(index)
}

/// The bindings that a term of the type `tb` introduces.
pub open spec fn tb_bindings(h: Heap, tb: TypeBase) -> Slots<BindId> {
    h.metas[tb.codomain as int].bindings
}

/// Whether every parameter of `tb` has a type, whose codomain is in the store.
pub open spec fn params_typed(h: Heap, tb: TypeBase) -> bool {
    forall|i: int|
        0 <= i < tb.types.params@.len() ==> (#[trigger] tb.types.params@[i]) is Some
            && tb.types.params@[i]->0.codomain < h.metas.len()
}

/// The metavariables for the parameters of `tb`.
pub open spec fn param_metas(h: Heap, tb: TypeBase, parent: Option<MetaId>) -> Seq<MetaView> {
    Seq::new(
        tb.types.params@.len(),
        |i: int| blank(tb_bindings(h, *tb.types.params@[i]->0), parent),
    )
}

/// The `n` positions from `start` on.
pub open spec fn positions(start: nat, n: nat) -> Seq<MetaId> {
    Seq::new(n, |i: int| (start + i) as usize)
}

impl TypeBase {
    /// Whether `args_metas` can be made.
    pub fn can_args_metas(&self, store: &Store) -> (r: bool)
        ensures
            r == params_typed(store@, *self),
    {
        let mut i: usize = 0;
        while i < self.types.params.len()
            invariant
                i <= self.types.params@.len(),
                forall|k: int|
                    0 <= k < i ==> (#[trigger] self.types.params@[k]) is Some
                        && self.types.params@[k]->0.codomain < store@.metas.len(),
            decreases self.types.params@.len() - i,
        {
            match &self.types.params[i] {
                None => {
                    return false;
                },
                Some(t) => {
                    if !store.has_meta(t.codomain) {
                        return false;
                    }
                },
            }
            i = i + 1;
        }
        true
    }

    /// Create new metavariables to fill the parameters of this TypeBase.
    pub fn args_metas(&self, store: &mut Store, parent: Option<MetaId>) -> (r: Vec<MetaId>)
        requires
            params_typed(old(store)@, *self),
        ensures
            r@ == positions(old(store)@.metas.len(), self.types.params@.len()),
            final(store)@ == (Heap {
                metas: old(store)@.metas + param_metas(old(store)@, *self, parent),
                ..old(store)@
            }),
            r@.len() > 0 ==> final(store)@.metas.len() <= usize::MAX,
    {
        let arity: usize = self.types.params.len();
        let mut args: Vec<MetaId> = Vec::new();
        let ghost all = param_metas(store@, *self, parent);
        let mut i: usize = 0;
        assert(store@.metas =~= old(store)@.metas + all.take(0));
        while i < arity
            invariant
                i <= arity,
                arity == self.types.params@.len(),
                params_typed(old(store)@, *self),
                all == param_metas(old(store)@, *self, parent),
                store@.metas == old(store)@.metas + all.take(i as int),
                store@.binds == old(store)@.binds,
                args@ == positions(old(store)@.metas.len(), i as nat),
                args@.len() > 0 ==> store@.metas.len() <= usize::MAX,
            decreases arity - i,
        {
            let t: &Rc<TypeBase> = self.types.params[i].as_ref().unwrap();
            assert(self.types.params@[i as int] is Some);
            let bindings = store.meta(t.codomain).bindings.clone();
            let meta = Meta {
                assignment: None,
                gamma: ES::new(),
                constraints: Vec::new(),
                typ: None,
                bindings,
                from_original_problem: false,
                had_rigid_equation: false,
                parent,
            };
            assert(meta@.constraints =~= Seq::empty());
            assert(meta@ == all[i as int]);
            let id: MetaId = store.add_meta(meta);
            args.push(id);
            assert(store.metas.len() == store@.metas.len());
            proof {
                assert(all.take(i + 1) =~= all.take(i as int).push(all[i as int]));
                assert(store@.metas =~= old(store)@.metas + all.take(i + 1));
                assert(args@ =~= positions(old(store)@.metas.len(), (i + 1) as nat));
            }
            i = i + 1;
        }
        assert(all.take(arity as int) =~= all);
        args
    }
}

/// The return type of `t`, as a term.
pub open spec fn codomain(t: TypeView) -> TermView {
    TermView { base: t.base.codomain, es: t.es }
}

/// Whether `t` has a parameter type at `index` that refers to nothing missing.
pub open spec fn has_type(h: Heap, t: TypeView, index: Index) -> bool {
    &&& t.base.types@.has(index)
    &&& part(*t.base, index) is Some
    &&& part(*t.base, index)->0.codomain < h.metas.len()
    &&& t.base.codomain < h.metas.len()
    &&& tb_bindings(h, *t.base).has(index)
}

/// The parameter type of `t` at `index`, specialized to `entry`.
pub open spec fn type_at(h: Heap, t: TypeView, index: Index, entry: EntryView) -> TypeView {
    let base = part(*t.base, index)->0;
    TypeView {
        base,
        es: appended(t.es, NodeView { entry, bindings: tb_bindings(h, *base) }),
        bind: tb_bindings(h, *t.base).at(index),
    }
}

impl Type {
    /// Get the return type, as a `Term`.
    pub fn codomain(&self) -> (r: Term)
        ensures
            r@ == codomain(self@),
    {
        Term { base: self.0.codomain, es: self.1.clone() }
    }

    /// Whether there is a parameter type at `index`.
    pub fn can_get(&self, store: &Store, index: Index) -> (r: bool)
        ensures
            r == has_type(store@, self@, index),
    {
        if !self.0.types.contains(index) {
            return false;
        }
        match self.0.types.index(index) {
            None => false,
            Some(base) => store.has_meta(base.codomain) && store.has_meta(self.0.codomain)
                && store.meta(self.0.codomain).bindings.contains(index),
        }
    }

    /// Get the parameter type at `i`, specialized to `entry`.
    pub fn get(
        &self,
        store: &Store,
        i: Index,
        entry: Entry,
        owned_linked: &mut Vec<Rc<Linked>>,
    ) -> (r: Type)
        requires
            has_type(store@, self@, i),
        ensures
            r@ == type_at(store@, self@, i, entry@),
            old(owned_linked)@.is_prefix_of(final(owned_linked)@),
            final(owned_linked)@.len() == old(owned_linked)@.len() + links(
                tb_bindings(store@, *part(*self.0, i)->0),
            ),
    {
        let base: &Rc<TypeBase> = self.0.types.index(i).as_ref().unwrap();
        let bindings = store.meta(base.codomain).bindings.clone();
        Type(
            base.clone(),
            self.1.append(Node { entry, bindings }, owned_linked),
            *store.meta(self.0.codomain).bindings.index(i),
        )
    }
}

impl Meta {
    /// Creates an unassigned metavariable of a given `Type`.
    pub fn new(store: &Store, typ: Type) -> (r: Meta)
        requires
            typ.0.codomain < store@.metas.len(),
        ensures
            r@ == typed_meta(store@, typ@),
    {
        let bindings = store.meta(typ.0.codomain).bindings.clone();
        let r = Meta {
            assignment: None,
            gamma: typ.1.clone(),
            constraints: Vec::new(),
            typ: Some(typ),
            bindings,
            from_original_problem: false,
            had_rigid_equation: false,
            parent: None,
        };
        assert(r@.constraints =~= Seq::empty());
        r
    }
}

/// An unassigned metavariable of the type `t`.
pub open spec fn typed_meta(h: Heap, t: TypeView) -> MetaView {
    MetaView {
        gamma: t.es,
        typ: Some(t),
        ..blank(tb_bindings(h, *t.base), None)
    }
}

} // verus!
