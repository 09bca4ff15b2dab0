//! What can be done to a term that is refined by hand, and undone.
use crate::data::{Linked, Meta, MetaId, MetaView, ES};
use crate::frames::{lemma_attempt_grown, lemma_grown_sane, sane};
use crate::ids::{Fault, Ids};
use crate::independence::leaves;
use crate::index::DeBruijnIndex;
use crate::memory::{meta_views, Heap, Store};
use crate::prover::{lemma_with_candidate, with_candidate};
use crate::readback::lemma_tried_and_dropped;
use crate::refine::{
    all_open, find_autofill, find_with_id, forced, lemma_leaves_open, AUTOFILL_LIMIT,
};
use crate::search::attempt;
use std::rc::Rc;
use vstd::prelude::*;

verus! {

/// A refinement: the term that is displayed, and those before and after it.
pub struct AppState {
    /// Holds the term currently being displayed.
    pub store: Store,
    /// The root of the term currently being displayed.
    pub current: MetaId,
    /// The undo stack.
    pub undo: Vec<Vec<Meta>>,
    /// The redo stack.
    pub redo: Vec<Vec<Meta>>,
    /// Whether to automatically make forced moves.
    pub autofill: bool,
    pub constraints: bool,
}

/// The view of an `AppState`.
#[verifier::ext_equal]
pub struct AppStateView {
    pub heap: Heap,
    pub current: MetaId,
    pub undo: Seq<Seq<MetaView>>,
    pub redo: Seq<Seq<MetaView>>,
    pub autofill: bool,
    pub constraints: bool,
}

/// Whether `metas` hold a term with the given root.
pub open spec fn holds_term(metas: Seq<MetaView>, root: MetaId, h: Heap) -> bool {
    sane(Heap { metas, ..h }) && root < metas.len()
}

impl AppStateView {
    /// Whether the term that is displayed, and each of those before and after it, is in order.
    pub open spec fn sound(self) -> bool {
        &&& holds_term(self.heap.metas, self.current, self.heap)
        &&& forall|i: int|
            0 <= i < self.undo.len() ==> holds_term(
                #[trigger] self.undo[i],
                self.current,
                self.heap,
            )
        &&& forall|i: int|
            0 <= i < self.redo.len() ==> holds_term(
                #[trigger] self.redo[i],
                self.current,
                self.heap,
            )
    }

    /// The state with the last term of the undo stack displayed.
    pub open spec fn undone(self) -> AppStateView {
        if self.undo.len() == 0 {
            self
        } else {
            AppStateView {
                heap: Heap { metas: self.undo.last(), ..self.heap },
                undo: self.undo.drop_last(),
                redo: self.redo.push(self.heap.metas),
                ..self
            }
        }
    }

    /// The state with the last term of the redo stack displayed.
    pub open spec fn redone(self) -> AppStateView {
        if self.redo.len() == 0 {
            self
        } else {
            AppStateView {
                heap: Heap { metas: self.redo.last(), ..self.heap },
                redo: self.redo.drop_last(),
                undo: self.undo.push(self.heap.metas),
                ..self
            }
        }
    }

    /// The state with the term of `h` displayed next.
    pub open spec fn moved(self, h: Heap) -> AppStateView {
        AppStateView {
            heap: h,
            undo: self.undo.push(self.heap.metas),
            redo: Seq::empty(),
            ..self
        }
    }

    /// The state with a single metavariable.
    pub open spec fn cleared(self) -> AppStateView {
        AppStateView {
            heap: self.heap.with_assignment(self.current, None),
            undo: Seq::empty(),
            redo: Seq::empty(),
            ..self
        }
    }
}

/// The views of terms.
pub open spec fn stack_view(stack: Seq<Vec<Meta>>) -> Seq<Seq<MetaView>> {
    stack.map_values(|metas: Vec<Meta>| meta_views(metas@))
}

/// Assigns the variable `db` to `m`, and then, if asked to, makes forced moves in the term of
/// `root`, up to `k` assignments in all. An assignment that is not possible ends it. Also gives the
/// next identifier.
pub open spec fn played(
    h: Heap,
    root: MetaId,
    m: MetaId,
    db: DeBruijnIndex,
    k: nat,
    autofill: bool,
    fuel: nat,
    next: u64,
) -> Result<(Heap, u64), Fault>
    decreases k,
{
    let es = h.metas[m as int].gamma;
    if k == 0 {
        Ok((h, next))
    } else if db.0.0 >= es.len() {
        Err(Fault::Malformed)
    } else {
        match attempt(h, db, es[db.0.0 as int], m, fuel, next) {
            Err(f) => Err(f),
            Ok((Some(Some(c)), g, n)) => {
                let h1 = with_candidate(g, m, c);
                if !autofill {
                    Ok((h1, n))
                } else {
                    match forced(h1, leaves(h1, root), 0, fuel, n) {
                        Err(f) => Err(f),
                        Ok((None, n1)) => Ok((h1, n1)),
                        Ok((Some((m1, db1)), n1)) => played(
                            h1,
                            root,
                            m1,
                            db1,
                            (k - 1) as nat,
                            autofill,
                            fuel,
                            n1,
                        ),
                    }
                }
            },
            Ok((_, _, n)) => Ok((h, n)),
        }
    }
}

/// Assigns the variable `db` to the metavariable `id` of the term that is displayed. Also gives
/// the next identifier.
pub open spec fn assigned_state(
    s: AppStateView,
    id: usize,
    db: DeBruijnIndex,
    fuel: nat,
    next: u64,
) -> Result<(AppStateView, u64), Fault> {
    if !leaves(s.heap, s.current).contains(id) {
        Err(Fault::Malformed)
    } else {
        match played(
            s.heap,
            s.current,
            id,
            db,
            AUTOFILL_LIMIT as nat,
            s.autofill,
            fuel,
            next,
        ) {
            Err(f) => Err(f),
            Ok((h, n)) => Ok((s.moved(h), n)),
        }
    }
}

pub proof fn lemma_forced_member(h: Heap, ms: Seq<MetaId>, i: nat, fuel: nat, next: u64)
    ensures
        forced(h, ms, i, fuel, next) matches Ok((Some((m, _)), _)) ==> ms.contains(m),
    decreases ms.len() - i,
{
    if i < ms.len() {
        let m = ms[i as int];
        assert(ms.contains(m));
        match crate::refine::options(
            h,
            m,
            crate::es::variables(h.metas[m as int].gamma).len(),
            fuel,
            next,
        ) {
            Err(_) => {},
            Ok((dbs, n)) => {
                if dbs.len() != 1 {
                    lemma_forced_member(h, ms, i + 1, fuel, n);
                }
            },
        }
    }
}

/// Makes the assignments of `played`. Where that fails, the store holds what was done so far.
fn play(
    store: &mut Store,
    root: MetaId,
    meta: MetaId,
    db: DeBruijnIndex,
    autofill: bool,
    fuel: usize,
    ids: &mut Ids,
) -> (r: Result<(), Fault>)
    requires
        sane(old(store)@),
        root < old(store)@.metas.len(),
        meta < old(store)@.metas.len(),
        !old(store)@.assigned(meta),
    ensures
        played(
            old(store)@,
            root,
            meta,
            db,
            AUTOFILL_LIMIT as nat,
            autofill,
            fuel as nat,
            old(ids).next,
        ) == match r {
            Ok(()) => Ok::<(Heap, u64), Fault>((final(store)@, final(ids).next)),
            Err(f) => Err(f),
        },
        r is Ok ==> sane(final(store)@) && old(store)@.metas.len() <= final(store)@.metas.len(),
        final(store)@.binds == old(store)@.binds,
{
    let ghost h0 = store@;
    let ghost target = played(
        h0,
        root,
        meta,
        db,
        AUTOFILL_LIMIT as nat,
        autofill,
        fuel as nat,
        ids.next,
    );
    let mut at: MetaId = meta;
    let mut var: DeBruijnIndex = db;
    let mut left: u32 = AUTOFILL_LIMIT;
    while left > 0
        invariant
            sane(store@),
            h0 == old(store)@,
            root < h0.metas.len() <= store@.metas.len(),
            store@.binds == h0.binds,
            left > 0 ==> at < store@.metas.len() && !store@.assigned(at),
            target == played(
                store@,
                root,
                at,
                var,
                left as nat,
                autofill,
                fuel as nat,
                ids.next,
            ),
            h0 == old(store)@,
            target == played(
                h0,
                root,
                meta,
                db,
                AUTOFILL_LIMIT as nat,
                autofill,
                fuel as nat,
                old(ids).next,
            ),
        ensures
            target == Ok::<(Heap, u64), Fault>((store@, ids.next)),
        decreases left,
    {
        let ghost h = store@;
        let ghost es = h.metas[at as int].gamma;
        let ghost next = ids.next;
        let len: usize = store.metas.len();
        assert(len == h.metas.len());
        let gamma: ES = store.meta(at).gamma.clone();
        if !gamma.longer_than(var.0.0) {
            return Err(Fault::Malformed);
        }
        let curr: Rc<Linked> = match gamma.sub_es(var.0).linked {
            None => {
                return Err(Fault::Malformed);
            },
            Some(l) => l,
        };
        assert(es.skip(var.0.0 as int)[0] == es[var.0.0 as int]);
        assert(crate::data::nodes(Some(curr))[0] == curr.node@);
        match crate::search::test(store, var, &curr, at, fuel, ids) {
            Err(f) => {
                return Err(f);
            },
            Ok(Some(Some(c))) => {
                let ghost g = store@;
                let ghost view = c@;
                proof {
                    lemma_attempt_grown(h, var, curr.node@, at, fuel as nat, next);
                    lemma_grown_sane(h, g, at);
                    lemma_with_candidate(g, at, view);
                }
                Meta::assign(store, at, c.assignment, c.constraints);
                assert(store@ == with_candidate(g, at, view));
                if !autofill {
                    return Ok(());
                }
                let ghost h1 = store@;
                let ghost n1 = ids.next;
                match find_autofill(store, root, fuel, ids) {
                    Err(f) => {
                        return Err(f);
                    },
                    Ok(None) => {
                        return Ok(());
                    },
                    Ok(Some((found, found_db))) => {
                        proof {
                            lemma_forced_member(h1, leaves(h1, root), 0, fuel as nat, n1);
                            lemma_leaves_open(h1, root);
                            assert(all_open(h1, leaves(h1, root)));
                        }
                        at = found;
                        var = found_db;
                    },
                }
            },
            Ok(_) => {
                proof {
                    lemma_tried_and_dropped(
                        h,
                        store@,
                        var,
                        curr.node@,
                        at,
                        fuel as nat,
                        next,
                    );
                }
                store.truncate(len);
                return Ok(());
            },
        }
        left = left - 1;
    }
    Ok(())
}

impl AppState {
    pub open spec fn view(&self) -> AppStateView {
        AppStateView {
            heap: self.store@,
            current: self.current,
            undo: stack_view(self.undo@),
            redo: stack_view(self.redo@),
            autofill: self.autofill,
            constraints: self.constraints,
        }
    }

    /// A refinement that begins with the given term.
    pub fn new(store: Store, current: MetaId) -> (r: AppState)
        ensures
            r@ == (AppStateView {
                heap: store@,
                current,
                undo: Seq::empty(),
                redo: Seq::empty(),
                autofill: true,
                constraints: false,
            }),
    {
        let r = AppState {
            store,
            current,
            undo: Vec::new(),
            redo: Vec::new(),
            autofill: true,
            constraints: false,
        };
        assert(r@.undo =~= Seq::empty());
        assert(r@.redo =~= Seq::empty());
        r
    }

    /// Perform the assignment of the variable `db` to the metavariable `id`. Nothing changes where
    /// that fails.
    pub fn assign(&mut self, id: usize, db: DeBruijnIndex, fuel: usize, ids: &mut Ids) -> (r: Result<
        (),
        Fault,
    >)
        requires
            old(self)@.sound(),
        ensures
            assigned_state(old(self)@, id, db, fuel as nat, old(ids).next) == match r {
                Ok(()) => Ok::<(AppStateView, u64), Fault>((final(self)@, final(ids).next)),
                Err(f) => Err(f),
            },
            r is Err ==> final(self)@ == old(self)@,
            final(self)@.sound(),
    {
        let ghost s = self@;
        assert(Heap { metas: s.heap.metas, ..s.heap } == s.heap);
        let meta: MetaId = match find_with_id(&self.store, self.current, id) {
            None => {
                return Err(Fault::Malformed);
            },
            Some(m) => m,
        };
        proof {
            lemma_leaves_open(s.heap, s.current);
            assert(all_open(s.heap, leaves(s.heap, s.current)));
        }
        let prev: Vec<Meta> = self.store.copy_metas();
        match play(&mut self.store, self.current, meta, db, self.autofill, fuel, ids) {
            Err(f) => {
                let _ = self.store.swap_metas(prev);
                assert(self@.heap =~= s.heap);
                Err(f)
            },
            Ok(()) => {
                self.redo = Vec::new();
                let ghost before = self.undo@;
                self.undo.push(prev);
                assert(stack_view(self.undo@) =~= stack_view(before).push(s.heap.metas));
                assert(stack_view(self.redo@) =~= Seq::empty());
                proof {
                    let t = self@;
                    assert(Heap { metas: t.heap.metas, ..t.heap } == t.heap);
                    assert forall|i: int| 0 <= i < t.undo.len() implies holds_term(
                        #[trigger] t.undo[i],
                        t.current,
                        t.heap,
                    ) by {
                        if i < s.undo.len() {
                            assert(t.undo[i] == s.undo[i]);
                        }
                    }
                }
                Ok(())
            },
        }
    }

    /// Undo an assignment.
    pub fn undo(&mut self)
        ensures
            final(self)@ == old(self)@.undone(),
            old(self)@.sound() ==> final(self)@.sound(),
    {
        let ghost s = self@;
        let ghost before = self.undo@;
        let ghost after = self.redo@;
        if let Some(prev) = self.undo.pop() {
            let new = self.store.swap_metas(prev);
            self.redo.push(new);
            assert(stack_view(self.undo@) =~= stack_view(before).drop_last());
            assert(stack_view(self.redo@) =~= stack_view(after).push(s.heap.metas));
            assert(meta_views(prev@) == stack_view(before).last());
        } else {
            assert(stack_view(before).len() == 0);
        }
        proof {
            if s.sound() {
                lemma_undo_sound(s);
            }
        }
    }

    /// Redo an assignment.
    pub fn redo(&mut self)
        ensures
            final(self)@ == old(self)@.redone(),
            old(self)@.sound() ==> final(self)@.sound(),
    {
        let ghost s = self@;
        let ghost before = self.redo@;
        let ghost after = self.undo@;
        if let Some(prev) = self.redo.pop() {
            let new = self.store.swap_metas(prev);
            self.undo.push(new);
            assert(stack_view(self.redo@) =~= stack_view(before).drop_last());
            assert(stack_view(self.undo@) =~= stack_view(after).push(s.heap.metas));
            assert(meta_views(prev@) == stack_view(before).last());
        } else {
            assert(stack_view(before).len() == 0);
        }
        proof {
            if s.sound() {
                lemma_redo_sound(s);
            }
        }
    }

    /// Reset the prover to a single metavariable.
    pub fn reset(&mut self)
        requires
            old(self)@.current < old(self)@.heap.metas.len(),
        ensures
            final(self)@ == old(self)@.cleared(),
            old(self)@.sound() ==> final(self)@.sound(),
    {
        proof {
            lemma_clear_sound(self@);
        }
        self.undo = Vec::new();
        self.redo = Vec::new();
        let _ = self.store.swap_assignment(self.current, None);
        assert(stack_view(self.undo@) =~= Seq::empty());
        assert(stack_view(self.redo@) =~= Seq::empty());
    }

    /// Sets the given option flag. A key that is not the name of an option sets none.
    pub fn set(&mut self, key: &String, value: bool)
        ensures
            final(self)@ == (AppStateView {
                autofill: if key@ == "autofill"@ {
                    value
                } else {
                    old(self)@.autofill
                },
                constraints: if key@ != "autofill"@ && key@ == "constraints"@ {
                    value
                } else {
                    old(self)@.constraints
                },
                ..old(self)@
            }),
            old(self)@.sound() ==> final(self)@.sound(),
    {
        let autofill = String::from_str("autofill");
        let constraints = String::from_str("constraints");
        if *key == autofill {
            self.autofill = value;
        } else if *key == constraints {
            self.constraints = value;
        }
    }
}

proof fn lemma_undo_sound(s: AppStateView)
    requires
        s.sound(),
    ensures
        s.undone().sound(),
{
    if s.undo.len() > 0 {
        let t = s.undone();
        assert(holds_term(s.undo[s.undo.len() - 1], s.current, s.heap));
        assert forall|i: int| 0 <= i < t.undo.len() implies holds_term(
            #[trigger] t.undo[i],
            t.current,
            t.heap,
        ) by {
            assert(t.undo[i] == s.undo[i]);
        }
        assert forall|i: int| 0 <= i < t.redo.len() implies holds_term(
            #[trigger] t.redo[i],
            t.current,
            t.heap,
        ) by {
            if i < s.redo.len() {
                assert(t.redo[i] == s.redo[i]);
            }
        }
    }
}

proof fn lemma_redo_sound(s: AppStateView)
    requires
        s.sound(),
    ensures
        s.redone().sound(),
{
    if s.redo.len() > 0 {
        let t = s.redone();
        assert(holds_term(s.redo[s.redo.len() - 1], s.current, s.heap));
        assert forall|i: int| 0 <= i < t.redo.len() implies holds_term(
            #[trigger] t.redo[i],
            t.current,
            t.heap,
        ) by {
            assert(t.redo[i] == s.redo[i]);
        }
        assert forall|i: int| 0 <= i < t.undo.len() implies holds_term(
            #[trigger] t.undo[i],
            t.current,
            t.heap,
        ) by {
            if i < s.undo.len() {
                assert(t.undo[i] == s.undo[i]);
            }
        }
    }
}

proof fn lemma_clear_sound(s: AppStateView)
    requires
        s.current < s.heap.metas.len(),
    ensures
        s.sound() ==> s.cleared().sound(),
{
    if s.sound() {
        let g = s.cleared().heap;
        assert(Heap { metas: s.heap.metas, ..s.heap } == s.heap);
        assert(Heap { metas: g.metas, ..g } == g);
        lemma_grown_sane(s.heap, g, s.current);
    }
}

/// Redoing what was just undone leads back to where it was.
pub proof fn law_redo_after_undo(s: AppStateView)
    requires
        s.undo.len() > 0,
    ensures
        s.undone().redone() == s,
{
    let t = s.undone().redone();
    assert(t.undo =~= s.undo);
    assert(t.redo =~= s.redo);
}

/// Undoing what was just redone leads back to where it was.
pub proof fn law_undo_after_redo(s: AppStateView)
    requires
        s.redo.len() > 0,
    ensures
        s.redone().undone() == s,
{
    let t = s.redone().undone();
    assert(t.undo =~= s.undo);
    assert(t.redo =~= s.redo);
}

/// Undoing an assignment leads back to the term that was displayed before it.
pub proof fn law_undo_after_assign(
    s: AppStateView,
    id: usize,
    db: DeBruijnIndex,
    fuel: nat,
    next: u64,
)
    ensures
        assigned_state(s, id, db, fuel, next) matches Ok((t, _)) ==> {
            &&& t.undone().heap.metas == s.heap.metas
            &&& t.undone().undo == s.undo
            &&& t.undone().current == s.current
        },
{
    if let Ok((t, _)) = assigned_state(s, id, db, fuel, next) {
        assert(t.undone().undo =~= s.undo);
    }
}

} // verus!
