//! Starting a search for a term of a written type.
use crate::backtrack::{in_order, lists_all_leaves, Prover};
use crate::data::{plain_bind, Bind, BindId, TypeBase, ES};
use crate::elaborate::{progressed, ElabError, ElabErrorView};
use crate::frames::sane;
use crate::ids::Ids;
use crate::index::Polarity;
use crate::ir::IRType;
use crate::memory::{Heap, Store};
use crate::prover::started;
use crate::stats::MetaStats;
use crate::typed::{law_type_sane, tb_view, typ};
use std::rc::Rc;
use vstd::prelude::*;

verus! {

/// The heap with a bind for the term that is searched for.
pub open spec fn with_problem(h: Heap, name: Seq<char>) -> Heap {
    Heap { binds: h.binds.push(plain_bind(name, Polarity::Goal)), ..h }
}

impl IRType {
    /// Starts a search for a term of this type, which is given the name `name`.
    pub fn start(
        &self,
        name: String,
        store: &mut Store,
        stats: &rustc_hash::FxHashMap<u64, MetaStats>,
        fuel: usize,
        ids: &mut Ids,
        sites: &mut Vec<(BindId, ES)>,
    ) -> (r: Result<Prover, ElabError>)
        ensures
            match typ(
                progressed(*old(store), *old(ids), old(sites)@),
                *self,
                Seq::empty(),
                Polarity::Goal,
            ) {
                Err(e) => r matches Err(x) && x@ == e,
                Ok((s, view, _)) => exists|tb: Rc<TypeBase>| #[trigger]
                    tb_view(*tb) == view && match started(
                        with_problem(s.heap, name@),
                        tb,
                        s.heap.binds.len() as BindId,
                        stats@,
                        fuel as nat,
                        s.next,
                    ) {
                        Ok((h, q, n)) => {
                            &&& r matches Ok(p)
                            &&& p@ == q
                            &&& final(store)@ == h
                            &&& final(ids).next == n
                        },
                        Err(f) => {
                            &&& r matches Err(x)
                            &&& x@ == ElabErrorView::Fault(f)
                        },
                    },
            },
            r matches Ok(p) ==> {
                &&& lists_all_leaves(p@, None)
                &&& sane(old(store)@) ==> in_order(final(store)@, p@)
            },
    {
        let ghost s0 = progressed(*store, *ids, sites@);
        let es = ES::new();
        assert(es@ =~= Seq::empty());
        let tb: TypeBase = match self.to_type(store, &es, Polarity::Goal, ids, sites) {
            Err(e) => {
                return Err(e);
            },
            Ok((tb, _)) => tb,
        };
        let metas: usize = store.metas.len();
        assert(metas == store@.metas.len());
        proof {
            if sane(s0.heap) {
                law_type_sane(s0, *self, es@, Polarity::Goal);
            }
        }
        let problem_bind: BindId = store.add_bind(Bind::new(name, Polarity::Goal));
        let tb_ref = Rc::new(tb);
        match Prover::new(store, tb_ref.clone(), problem_bind, stats, fuel, ids) {
            Err(f) => Err(ElabError::Fault(f)),
            Ok(p) => Ok(p),
        }
    }
}

} // verus!
