//! The candidates for a metavariable.
use crate::constraint::{fresh, Progress};
use crate::data::{
    constraint_views, Assignment, AssignmentView, Constraint, ConstraintView, Entry, EntryView,
    Head, Linked, Meta, MetaId, MetaView, Node, NodeView, Subst, SubstView, Type, TypeBase,
    TypeView, ES, WHNF,
};
use crate::es::{appended, links, subst_entry, vars_entry};
use crate::ids::{next_u64, Fault, Ids, STRIDE};
use crate::index::{DeBruijnIndex, Index};
use crate::memory::{Heap, Store};
use crate::normal::open_meta;
use crate::propagation::law_all_progress;
use crate::meta::{obligations, reduce_all, test_start, testable};
use crate::term::{whnf, Effects};
use crate::types::{
    codomain, has_type, param_metas, params_typed, part, positions, tb_bindings, type_at,
};
use std::rc::Rc;
use vstd::prelude::*;

verus! {

/// Results from a DFS subtree.
#[derive(Debug, Copy, Clone)]
pub struct DFSResult {
    pub unknown_count: u32,
    pub solution_count: u32,
    pub steps: u32,
    pub branching: usize,
    pub attempts: u32,
}

impl DFSResult {
    /// Whether `self` and `other` can be added.
    pub open spec fn can_add(self, other: DFSResult) -> bool {
        &&& self.unknown_count + other.unknown_count <= u32::MAX
        &&& self.solution_count + other.solution_count <= u32::MAX
        &&& self.steps + other.steps <= u32::MAX
        &&& self.branching + other.branching <= usize::MAX
        &&& self.attempts + other.attempts <= u32::MAX
    }

    /// Add `other` into `self`.
    pub fn add(&mut self, other: DFSResult)
        requires
            old(self).can_add(other),
        ensures
            final(self).unknown_count == old(self).unknown_count + other.unknown_count,
            final(self).solution_count == old(self).solution_count + other.solution_count,
            final(self).steps == old(self).steps + other.steps,
            final(self).branching == old(self).branching + other.branching,
            final(self).attempts == old(self).attempts + other.attempts,
    {
        self.unknown_count = self.unknown_count + other.unknown_count;
        self.steps = self.steps + other.steps;
        self.solution_count = self.solution_count + other.solution_count;
        self.branching = self.branching + other.branching;
        self.attempts = self.attempts + other.attempts;
    }
}

/// The information that may be used to determine the entropy of an assignment.
#[derive(Debug, Copy, Clone)]
pub struct AssignmentInfo {
    pub meta: MetaId,
    pub constraints_generated: usize,
    pub had_rigid_equation: bool,
    pub has_rigid_type: bool,
    /// The bin of the statistics that this assignment belongs to.
    pub bin: u64,
}

/// The bin of an assignment with the given type and bind.
pub open spec fn assignment_bin(key: u64, bind: usize, has_rigid_type: bool) -> u64 {
    (((key + bind + if has_rigid_type {
        1int
    } else {
        0
    }) * 2) % 0x1_0000_0000_0000_0000) as u64
}

/// The information on the assignment `a` to `m`.
pub open spec fn info_of(h: Heap, m: MetaId, a: AssignmentView) -> AssignmentInfo {
    AssignmentInfo {
        meta: m,
        constraints_generated: a.changes.len() as usize,
        had_rigid_equation: h.metas[m as int].had_rigid_equation,
        has_rigid_type: a.has_rigid_type,
        bin: assignment_bin(h.metas[m as int].typ->0.base.key, a.bind, a.has_rigid_type),
    }
}

impl AssignmentInfo {
    /// Collect the information of the assignment `assn` to `meta`.
    pub fn new(store: &Store, meta: MetaId, assn: &Assignment) -> (r: AssignmentInfo)
        requires
            meta < store@.metas.len(),
            store@.metas[meta as int].typ is Some,
        ensures
            r == info_of(store@, meta, assn@),
    {
        let m = store.meta(meta);
        let key: u64 = m.typ.as_ref().unwrap().0.key;
        let rigid: u64 = if assn.has_rigid_type {
            1
        } else {
            0
        };
        let bind: u64 = assn.bind as u64;
        let bin: u64 = key.wrapping_add(bind).wrapping_add(rigid).wrapping_mul(2);
        proof {
            let w = 0x1_0000_0000_0000_0000int;
            let s1 = (key + bind) % w;
            let s2 = (s1 + rigid) % w;
            vstd::arithmetic::div_mod::lemma_add_mod_noop(key + bind, rigid as int, w);
            vstd::arithmetic::div_mod::lemma_mul_mod_noop_left(key + bind + rigid, 2, w);
            assert(key.wrapping_add(bind) == s1);
            assert(key.wrapping_add(bind).wrapping_add(rigid) == s2);
            assert(s2 == (key + bind + rigid) % w);
            assert(bin == (s2 * 2) % w);
        }
        AssignmentInfo {
            meta,
            constraints_generated: assn.changes.len(),
            had_rigid_equation: m.had_rigid_equation,
            has_rigid_type: assn.has_rigid_type,
            bin,
        }
    }
}

/// A possible assignment to a metavariable, with the constraints that it would leave.
pub struct Candidate {
    pub assignment: Assignment,
    pub constraints: Vec<Constraint>,
    pub info: AssignmentInfo,
}

/// The view of a `Candidate`.
#[verifier::ext_equal]
pub struct CandidateView {
    pub assignment: AssignmentView,
    pub constraints: Seq<ConstraintView>,
    pub info: AssignmentInfo,
}

impl Candidate {
    pub open spec fn view(&self) -> CandidateView {
        CandidateView {
            assignment: self.assignment@,
            constraints: constraint_views(self.constraints@),
            info: self.info,
        }
    }
}

/// What a test came to: no type is known for the head, a constraint is violated, or the
/// assignment is possible.
pub open spec fn outcome_view(r: Option<Option<Candidate>>) -> Option<Option<CandidateView>> {
    match r {
        None => None,
        Some(None) => Some(None),
        Some(Some(c)) => Some(Some(c.view())),
    }
}

/// The entry of the local variables of an argument, which have the type `typ`.
pub open spec fn typed_entry(next: u64, typ: TypeView) -> EntryView {
    EntryView { context: Some(typ), ..vars_entry(next, (next + STRIDE) as u64) }
}

/// Gives the arguments `args`, from the `i`th on, their types and contexts: the type of an
/// argument is that of the parameter of `var_type`, its context is `gamma` and the variables
/// that it binds.
pub open spec fn type_args(
    h: Heap,
    var_type: TypeView,
    gamma: Seq<NodeView>,
    args: Seq<MetaId>,
    i: nat,
    next: u64,
) -> Result<(Heap, u64), Fault>
    decreases args.len() - i,
{
    if i >= args.len() {
        Ok((h, next))
    } else if !has_type(h, var_type, Index::Param(i as usize)) {
        Err(Fault::Malformed)
    } else if next + 2 * STRIDE > u64::MAX {
        Err(Fault::Exhausted)
    } else {
        let m = h.metas[args[i as int] as int];
        let typ = type_at(
            h,
            var_type,
            Index::Param(i as usize),
            vars_entry(next, (next + STRIDE) as u64),
        );
        let node = NodeView { entry: typed_entry(next, typ), bindings: m.bindings };
        type_args(
            h.with_meta(
                args[i as int],
                MetaView { gamma: appended(gamma, node), typ: Some(typ), ..m },
            ),
            var_type,
            gamma,
            args,
            i + 1,
            (next + 2 * STRIDE) as u64,
        )
    }
}

/// Whether the variable at `index` in the context `ctx` can be made the head of `m`.
pub open spec fn applicable(h: Heap, ctx: TypeView, index: Index, m: MetaId) -> bool {
    &&& has_type(h, ctx, index)
    &&& params_typed(h, *part(*ctx.base, index)->0)
    &&& h.metas[m as int].typ is Some
    &&& tb_bindings(h, *ctx.base).at(index) < h.binds.len()
}

/// Constructs and tests the assignment of the variable `head`, found in `node`, to `m`. The new
/// metavariables for its arguments are kept where the assignment is possible; `m` is left
/// unassigned.
#[verifier::opaque]
pub open spec fn attempt(
    h: Heap,
    head: DeBruijnIndex,
    node: NodeView,
    m: MetaId,
    fuel: nat,
    next: u64,
) -> Result<(Option<Option<CandidateView>>, Heap, u64), Fault> {
    match node.entry.context {
        None => Ok((None, h, next)),
        Some(ctx) => if !ctx.base.types@.has(head.1) {
            Err(Fault::Malformed)
        } else {
            match part_at(ctx, head.1) {
                None => Ok((None, h, next)),
                Some(_) => if !applicable(h, ctx, head.1, m) {
                    Err(Fault::Malformed)
                } else if next + 2 * STRIDE > u64::MAX {
                    Err(Fault::Exhausted)
                } else {
                    let h1 = with_args(h, ctx, head.1, m);
                    let var_type = applied_type(h, ctx, head.1, m, next);
                    match whnf(
                        h1,
                        codomain(var_type),
                        true,
                        false,
                        fuel,
                        fresh((next + 2 * STRIDE) as u64),
                    ) {
                        Err(f) => Err(f),
                        Ok((w, e)) => judge(
                            h1,
                            m,
                            proposed(h, head, var_type, w.head is Var),
                            links_at(h, ctx, head.1),
                            fuel,
                            e.next,
                        ),
                    }
                },
            }
        },
    }
}

/// The type of the variable at `index` in `ctx`, if it is known.
pub open spec fn part_at(ctx: TypeView, index: Index) -> Option<Rc<TypeBase>> {
    part(*ctx.base, index)
}

/// `h` with new metavariables for the parameters of the variable at `index`, below `m`.
pub open spec fn with_args(h: Heap, ctx: TypeView, index: Index, m: MetaId) -> Heap {
    Heap { metas: h.metas + param_metas(h, *part_at(ctx, index)->0, Some(m)), ..h }
}

/// The number of links made in applying the variable at `index`.
pub open spec fn links_at(h: Heap, ctx: TypeView, index: Index) -> nat {
    links(tb_bindings(h, *part_at(ctx, index)->0))
}

/// The type of the variable at `index`, applied to new metavariables in the context of `m`.
pub open spec fn applied_type(
    h: Heap,
    ctx: TypeView,
    index: Index,
    m: MetaId,
    next: u64,
) -> TypeView {
    let tb = part(*ctx.base, index)->0;
    let args = positions(h.metas.len(), tb.types.params@.len());
    type_at(
        h,
        ctx,
        index,
        subst_entry(SubstView { args, es: h.metas[m as int].gamma }, next),
    )
}

/// The assignment of a variable of type `var_type`, applied to new metavariables.
pub open spec fn proposed(
    h: Heap,
    head: DeBruijnIndex,
    var_type: TypeView,
    has_rigid_type: bool,
) -> AssignmentView {
    AssignmentView {
        head,
        args: positions(h.metas.len(), var_type.base.types.params@.len()),
        bind: var_type.bind,
        changes: Seq::empty(),
        has_rigid_type,
        var_type: Some(var_type),
    }
}

/// `h` without its last `n` metavariables.
pub open spec fn shortened(h: Heap, n: nat) -> Heap {
    Heap { metas: h.metas.take(h.metas.len() - n), ..h }
}

/// Tests the assignment `a` to `m`, whose arguments are the last metavariables of `h`, and where
/// it is possible gives the arguments their types.
pub open spec fn judge(
    h: Heap,
    m: MetaId,
    a: AssignmentView,
    made: nat,
    fuel: nat,
    next: u64,
) -> Result<(Option<Option<CandidateView>>, Heap, u64), Fault> {
    let trial = h.with_assignment(m, Some(a));
    let start = Progress {
        constraints: Seq::empty(),
        changes: Seq::empty(),
        effects: Effects { next, links: made, noted: Seq::empty() },
    };
    match reduce_all(trial, obligations(trial, m), 0, start, fuel) {
        Err(f) => Err(f),
        Ok((false, p)) => Ok(
            (Some(None), shortened(h, a.args.len()).with_assignment(m, None), p.effects.next),
        ),
        Ok((true, p)) => {
            let a2 = AssignmentView { changes: p.changes, ..a };
            match type_args(
                h.with_assignment(m, None),
                a.var_type->0,
                h.metas[m as int].gamma,
                a.args,
                0,
                p.effects.next,
            ) {
                Err(f) => Err(f),
                Ok((typed, after)) => Ok(
                    (
                        Some(
                            Some(
                                CandidateView {
                                    assignment: a2,
                                    constraints: p.constraints,
                                    info: info_of(h, m, a2),
                                },
                            ),
                        ),
                        typed,
                        after,
                    ),
                ),
            }
        },
    }
}

/// Whether dropping the metavariables that `h` does not have, and unassigning `m`, leads from
/// `g` to `h` with `m` unassigned.
spec fn restorable(h: Heap, g: Heap, m: MetaId) -> bool {
    &&& h.metas.len() <= g.metas.len()
    &&& g.binds == h.binds
    &&& forall|x: int|
        0 <= x < h.metas.len() ==> (#[trigger] g.metas[x]) == (MetaView {
            assignment: g.metas[x].assignment,
            ..h.metas[x]
        })
    &&& forall|x: int|
        0 <= x < h.metas.len() && x != m ==> (#[trigger] g.metas[x]).assignment
            == h.metas[x].assignment
}

/// Construct and test the `Assignment` from refining `meta` with `head`, which is found at the
/// root of `curr`.
pub fn test(
    store: &mut Store,
    head: DeBruijnIndex,
    curr: &Rc<Linked>,
    meta: MetaId,
    fuel: usize,
    ids: &mut Ids,
) -> (r: Result<Option<Option<Candidate>>, Fault>)
    requires
        meta < old(store)@.metas.len(),
    ensures
        match r {
            Ok(o) => attempt(
                old(store)@,
                head,
                curr.node@,
                meta,
                fuel as nat,
                old(ids).next,
            ) == Ok::<(Option<Option<CandidateView>>, Heap, u64), Fault>(
                (outcome_view(o), final(store)@, final(ids).next),
            ),
            Err(f) => attempt(
                old(store)@,
                head,
                curr.node@,
                meta,
                fuel as nat,
                old(ids).next,
            ) == Err::<(Option<Option<CandidateView>>, Heap, u64), Fault>(f) && final(store)@ == old(
                store,
            )@.with_assignment(meta, None),
        },
        r is Ok ==> old(store)@.metas.len() + arity(curr.node@, head.1) <= usize::MAX,
{
    let len: usize = store.metas.len();
    let r = propose(store, head, curr, meta, fuel, ids);
    if r.is_err() {
        store.truncate(len);
        store.swap_assignment(meta, None);
        assert(store@.metas =~= old(store)@.with_assignment(meta, None).metas);
    }
    r
}

fn propose(
    store: &mut Store,
    head: DeBruijnIndex,
    curr: &Rc<Linked>,
    meta: MetaId,
    fuel: usize,
    ids: &mut Ids,
) -> (r: Result<Option<Option<Candidate>>, Fault>)
    requires
        meta < old(store)@.metas.len(),
    ensures
        match r {
            Ok(o) => attempt(
                old(store)@,
                head,
                curr.node@,
                meta,
                fuel as nat,
                old(ids).next,
            ) == Ok::<(Option<Option<CandidateView>>, Heap, u64), Fault>(
                (outcome_view(o), final(store)@, final(ids).next),
            ),
            Err(f) => attempt(
                old(store)@,
                head,
                curr.node@,
                meta,
                fuel as nat,
                old(ids).next,
            ) == Err::<(Option<Option<CandidateView>>, Heap, u64), Fault>(f) && restorable(
                old(store)@,
                final(store)@,
                meta,
            ),
        },
        r is Ok ==> old(store)@.metas.len() + arity(curr.node@, head.1) <= usize::MAX,
{
    reveal(attempt);
    let len: usize = store.metas.len();
    assert(len == store@.metas.len());
    let context: &Type = match &curr.node.entry.context {
        None => {
            return Ok(None);
        },
        Some(t) => t,
    };
    if !context.0.types.contains(head.1) {
        return Err(Fault::Malformed);
    }
    let tb: &TypeBase = match context.0.types.index(head.1) {
        None => {
            return Ok(None);
        },
        Some(tb) => &**tb,
    };
    if !context.can_get(store, head.1) || !tb.can_args_metas(store) || store.meta(
        meta,
    ).typ.is_none() {
        return Err(Fault::Malformed);
    }
    if !store.has_bind(*store.meta(context.0.codomain).bindings.index(head.1)) {
        return Err(Fault::Malformed);
    }
    if ids.next > u64::MAX - 2 * STRIDE {
        return Err(Fault::Exhausted);
    }
    let ghost h = store@;
    let ghost h1 = with_args(h, context@, head.1, meta);
    let args: Rc<Vec<MetaId>> = Rc::new(tb.args_metas(store, Some(meta)));
    assert(forall|x: int| 0 <= x < h.metas.len() ==> #[trigger] h1.metas[x] == h.metas[x]);
    let gamma: ES = store.meta(meta).gamma.clone();
    let mut owned_linked: Vec<Rc<Linked>> = Vec::new();
    let entry = Entry::subst(Subst(args.clone(), gamma.clone()), ids);
    let var_type: Type = context.get(store, head.1, entry, &mut owned_linked);
    assert(var_type@ == applied_type(h, context@, head.1, meta, old(ids).next));
    let ghost context_type = var_type@;
    let mut scratch: Vec<Rc<Linked>> = Vec::new();
    let has_rigid_type: bool = match var_type.codomain().whnf::<true, ()>(
        store,
        fuel,
        ids,
        &mut scratch,
        &mut (),
    ) {
        Err(f) => {
            return Err(f);
        },
        Ok(WHNF(_, Head::Var(_))) => true,
        Ok(WHNF(_, Head::Meta(_))) => false,
    };
    let a = Assignment {
        head,
        args,
        bind: var_type.2,
        changes: Vec::new(),
        has_rigid_type,
        var_type: Some(var_type),
    };
    assert(a@ == proposed(h, head, context_type, has_rigid_type));
    proof {
        assert(shortened(h1, a@.args.len()).metas =~= h.metas);
    }
    examine(store, meta, a, fuel, ids, &mut owned_linked)
}

/// Tests the assignment `a` to `meta`, whose arguments are the last metavariables.
#[verifier::rlimit(60)]
#[verifier::spinoff_prover]
fn examine(
    store: &mut Store,
    meta: MetaId,
    a: Assignment,
    fuel: usize,
    ids: &mut Ids,
    owned_linked: &mut Vec<Rc<Linked>>,
) -> (r: Result<Option<Option<Candidate>>, Fault>)
    requires
        a.var_type is Some,
        a@.changes.len() == 0,
        a.bind < old(store)@.binds.len(),
        a@.args.len() <= old(store)@.metas.len(),
        meta < old(store)@.metas.len() - a@.args.len(),
        old(store)@.metas[meta as int].typ is Some,
        a@.args == positions((old(store)@.metas.len() - a@.args.len()) as nat, a@.args.len()),
    ensures
        match r {
            Ok(o) => judge(
                old(store)@,
                meta,
                a@,
                old(owned_linked)@.len(),
                fuel as nat,
                old(ids).next,
            ) == Ok::<(Option<Option<CandidateView>>, Heap, u64), Fault>(
                (outcome_view(o), final(store)@, final(ids).next),
            ),
            Err(f) => judge(
                old(store)@,
                meta,
                a@,
                old(owned_linked)@.len(),
                fuel as nat,
                old(ids).next,
            ) == Err::<(Option<Option<CandidateView>>, Heap, u64), Fault>(f) && restorable(
                shortened(old(store)@, a@.args.len()),
                final(store)@,
                meta,
            ),
        },
{
    let ghost h = store@;
    let total: usize = store.metas.len();
    assert(total == h.metas.len());
    let args: Rc<Vec<MetaId>> = a.args.clone();
    let var_type: Type = match &a.var_type {
        Some(t) => t.clone(),
        None => {
            return Err(Fault::Malformed);
        },
    };
    let gamma: ES = store.meta(meta).gamma.clone();
    let ghost av = a@;
    store.swap_assignment(meta, Some(a));
    assert(testable(store@, meta));
    assert(test_start(store@, meta, *ids, owned_linked@) == (Progress {
        constraints: Seq::empty(),
        changes: Seq::empty(),
        effects: Effects { next: ids.next, links: owned_linked@.len(), noted: Seq::empty() },
    }));
    let constraints: Vec<Constraint> = match Meta::test_assignment(
        store,
        meta,
        fuel,
        ids,
        owned_linked,
    ) {
        Err(f) => {
            return Err(f);
        },
        Ok(None) => {
            // Constraint violation.
            store.swap_assignment(meta, None);
            assert(store@.metas.len() == h.metas.len() && args@ == av.args);
            store.truncate(total - args.len());
            assert(store@.metas =~= shortened(h, av.args.len()).with_assignment(meta, None).metas);
            return Ok(Some(None));
        },
        Ok(Some(cs)) => cs,
    };
    let assignment: Assignment = store.swap_assignment(meta, None).unwrap();
    let info = AssignmentInfo::new(store, meta, &assignment);
    assert(store@.metas =~= h.with_assignment(meta, None).metas);
    // Calculate the `typ` and `gamma` of the new metavariables.
    match type_arguments(store, &var_type, &gamma, &args, ids, owned_linked) {
        Err(f) => {
            proof {
                lemma_outside((h.metas.len() - av.args.len()) as nat, av.args.len());
            }
            return Err(f);
        },
        Ok(()) => {},
    }
    Ok(Some(Some(Candidate { assignment, constraints, info })))
}

/// Whether `x` is none of `args`.
spec fn outside(args: Seq<MetaId>, x: int) -> bool {
    forall|i: int| 0 <= i < args.len() ==> args[i] != x
}

/// The new metavariables are none of the earlier ones.
proof fn lemma_outside(len: nat, n: nat)
    requires
        n > 0 ==> len + n <= usize::MAX,
    ensures
        forall|x: int| 0 <= x < len ==> outside(positions(len, n), x),
{
    assert forall|x: int| 0 <= x < len implies outside(positions(len, n), x) by {
        assert forall|i: int| 0 <= i < n implies positions(len, n)[i] != x by {
            assert(positions(len, n)[i] == len + i);
        }
    }
}

/// Gives the arguments their types and contexts.
fn type_arguments(
    store: &mut Store,
    var_type: &Type,
    gamma: &ES,
    args: &Vec<MetaId>,
    ids: &mut Ids,
    owned_linked: &mut Vec<Rc<Linked>>,
) -> (r: Result<(), Fault>)
    requires
        forall|i: int| 0 <= i < args@.len() ==> args@[i] < old(store)@.metas.len(),
    ensures
        type_args(old(store)@, var_type@, gamma@, args@, 0, old(ids).next) == match r {
            Ok(()) => Ok::<(Heap, u64), Fault>((final(store)@, final(ids).next)),
            Err(f) => Err(f),
        },
        final(store)@.metas.len() == old(store)@.metas.len(),
        final(store)@.binds == old(store)@.binds,
        forall|x: int|
            0 <= x < old(store)@.metas.len() && outside(args@, x)
                ==> #[trigger] final(store)@.metas[x] == old(store)@.metas[x],
{
    let ghost h = store@;
    let mut i: usize = 0;
    while i < args.len()
        invariant
            i <= args@.len(),
            h == old(store)@,
            forall|i: int| 0 <= i < args@.len() ==> args@[i] < h.metas.len(),
            store@.metas.len() == h.metas.len(),
            store@.binds == h.binds,
            forall|x: int|
                0 <= x < h.metas.len() && outside(args@, x)
                    ==> #[trigger] store@.metas[x] == h.metas[x],
            type_args(h, var_type@, gamma@, args@, 0, old(ids).next) == type_args(
                store@,
                var_type@,
                gamma@,
                args@,
                i as nat,
                ids.next,
            ),
        decreases args@.len() - i,
    {
        let arg: MetaId = args[i];
        if !var_type.can_get(store, Index::Param(i)) {
            return Err(Fault::Malformed);
        }
        if ids.next > u64::MAX - 2 * STRIDE {
            return Err(Fault::Exhausted);
        }
        let var_id: u64 = next_u64(ids);
        let let_id: u64 = next_u64(ids);
        let typ: Type = var_type.get(
            store,
            Index::Param(i),
            Entry { params_id: var_id, lets_id: let_id, subst: None, context: None },
            owned_linked,
        );
        let bindings = store.meta(arg).bindings.clone();
        let node = Node {
            entry: Entry {
                params_id: var_id,
                lets_id: let_id,
                subst: None,
                context: Some(typ.clone()),
            },
            bindings,
        };
        let arg_gamma: ES = gamma.append(node, owned_linked);
        store.set_typ(arg, arg_gamma, typ);
        i = i + 1;
    }
    Ok(())
}

/// The number of metavariables that a test of the variable at `index` in `node` adds.
pub open spec fn arity(node: NodeView, index: Index) -> nat {
    match node.entry.context {
        None => 0,
        Some(ctx) => match part_at(ctx, index) {
            None => 0,
            Some(tb) => tb.types.params@.len(),
        },
    }
}

proof fn lemma_type_args_frame(
    h: Heap,
    var_type: TypeView,
    gamma: Seq<NodeView>,
    len: nat,
    n: nat,
    i: nat,
    next: u64,
)
    requires
        len + n <= usize::MAX,
        h.metas.len() == len + n,
    ensures
        type_args(h, var_type, gamma, positions(len, n), i, next) matches Ok((g, _)) ==> {
            &&& g.metas.len() == h.metas.len()
            &&& g.binds == h.binds
            &&& forall|x: int| 0 <= x < len ==> #[trigger] g.metas[x] == h.metas[x]
            &&& forall|x: int|
                len <= x < len + n ==> (#[trigger] g.metas[x]).parent == h.metas[x].parent
                    && g.metas[x].assignment == h.metas[x].assignment && g.metas[x].constraints
                    == h.metas[x].constraints
            &&& forall|x: int| len + i <= x < len + n ==> (#[trigger] g.metas[x]).typ is Some
        },
    decreases n - i,
{
    let args = positions(len, n);
    if i < n && has_type(h, var_type, Index::Param(i as usize)) && next + 2 * STRIDE <= u64::MAX {
        assert(args[i as int] == len + i);
        let m = h.metas[args[i as int] as int];
        let typ = type_at(
            h,
            var_type,
            Index::Param(i as usize),
            vars_entry(next, (next + STRIDE) as u64),
        );
        let node = NodeView { entry: typed_entry(next, typ), bindings: m.bindings };
        let h2 = h.with_meta(
            args[i as int],
            MetaView { gamma: appended(gamma, node), typ: Some(typ), ..m },
        );
        lemma_type_args_kept(h2, var_type, gamma, len, n, i + 1, (next + 2 * STRIDE) as u64);
        lemma_type_args_frame(h2, var_type, gamma, len, n, i + 1, (next + 2 * STRIDE) as u64);
    }
}

pub proof fn lemma_type_args_kept(
    h: Heap,
    var_type: TypeView,
    gamma: Seq<NodeView>,
    len: nat,
    n: nat,
    i: nat,
    next: u64,
)
    requires
        len + n <= usize::MAX,
        h.metas.len() == len + n,
    ensures
        type_args(h, var_type, gamma, positions(len, n), i, next) matches Ok((g, _)) ==> forall|
            x: int,
        |
            0 <= x < len + i && x < len + n ==> #[trigger] g.metas[x] == h.metas[x],
    decreases n - i,
{
    let args = positions(len, n);
    if i < n && has_type(h, var_type, Index::Param(i as usize)) && next + 2 * STRIDE <= u64::MAX {
        assert(args[i as int] == len + i);
        let m = h.metas[args[i as int] as int];
        let typ = type_at(
            h,
            var_type,
            Index::Param(i as usize),
            vars_entry(next, (next + STRIDE) as u64),
        );
        let node = NodeView { entry: typed_entry(next, typ), bindings: m.bindings };
        let h2 = h.with_meta(
            args[i as int],
            MetaView { gamma: appended(gamma, node), typ: Some(typ), ..m },
        );
        lemma_type_args_kept(h2, var_type, gamma, len, n, i + 1, (next + 2 * STRIDE) as u64);
    }
}

/// A test changes none of the metavariables that there were, except that it leaves `m`
/// unassigned, where the type of the variable is known. Where the assignment is possible, its
/// arguments are all the metavariables that the test has added: each is below `m`, unassigned, free
/// of constraints, and has a type. There is one constraint for each metavariable that would be
/// changed, and these are unassigned.
pub proof fn law_test_frame(
    h: Heap,
    head: DeBruijnIndex,
    node: NodeView,
    m: MetaId,
    fuel: nat,
    next: u64,
)
    requires
        m < h.metas.len(),
        h.metas.len() + arity(node, head.1) <= usize::MAX,
    ensures
        attempt(h, head, node, m, fuel, next) matches Ok((o, g, _)) ==> {
            &&& g.binds == h.binds
            &&& o is None ==> g == h
            &&& o is Some ==> g.metas.take(h.metas.len() as int) == h.with_assignment(m, None).metas
            &&& match o {
                Some(Some(c)) => {
                    &&& g.metas.len() == h.metas.len() + c.assignment.args.len()
                    &&& c.assignment.args == positions(h.metas.len(), c.assignment.args.len())
                    &&& c.assignment.args.len() == arity(node, head.1)
                    &&& c.assignment.head == head
                    &&& c.constraints.len() == c.assignment.changes.len()
                    &&& forall|k: int|
                        0 <= k < c.assignment.changes.len() ==> c.assignment.changes[k] != m
                            && open_meta(g, #[trigger] c.assignment.changes[k])
                    &&& forall|x: int|
                        h.metas.len() <= x < g.metas.len() ==> (#[trigger] g.metas[x]).parent
                            == Some(m) && g.metas[x].assignment is None
                            && g.metas[x].constraints.len() == 0 && g.metas[x].typ is Some
                },
                _ => g.metas.len() == h.metas.len(),
            }
        },
{
    reveal(attempt);
    if let Some(ctx) = node.entry.context {
        if ctx.base.types@.has(head.1) {
            if let Some(tb) = part_at(ctx, head.1) {
                if applicable(h, ctx, head.1, m) && next + 2 * STRIDE <= u64::MAX {
                    let h1 = with_args(h, ctx, head.1, m);
                    let var_type = applied_type(h, ctx, head.1, m, next);
                    let len = h.metas.len();
                    let n = tb.types.params@.len();
                    match whnf(
                        h1,
                        codomain(var_type),
                        true,
                        false,
                        fuel,
                        fresh((next + 2 * STRIDE) as u64),
                    ) {
                        Err(_) => {},
                        Ok((w, e)) => {
                            let a = proposed(h, head, var_type, w.head is Var);
                            let trial = h1.with_assignment(m, Some(a));
                            let start = Progress {
                                constraints: Seq::empty(),
                                changes: Seq::empty(),
                                effects: Effects {
                                    next: e.next,
                                    links: links_at(h, ctx, head.1),
                                    noted: Seq::empty(),
                                },
                            };
                            assert(shortened(h1, n).metas =~= h.metas);
                            match reduce_all(trial, obligations(trial, m), 0, start, fuel) {
                                Ok((true, p)) => {
                                    law_all_progress(
                                        trial,
                                        obligations(trial, m),
                                        0,
                                        start,
                                        fuel,
                                    );
                                    lemma_type_args_frame(
                                        h1.with_assignment(m, None),
                                        var_type,
                                        h1.metas[m as int].gamma,
                                        len,
                                        n,
                                        0,
                                        p.effects.next,
                                    );
                                    if let Ok((g, _)) = type_args(
                                        h1.with_assignment(m, None),
                                        var_type,
                                        h1.metas[m as int].gamma,
                                        positions(len, n),
                                        0,
                                        p.effects.next,
                                    ) {
                                        assert(g.metas.take(len as int) =~= h.with_assignment(
                                            m,
                                            None,
                                        ).metas);
                                        assert forall|k: int|
                                            0 <= k < p.changes.len() implies p.changes[k] != m
                                            && open_meta(g, #[trigger] p.changes[k]) by {
                                            assert(open_meta(trial, p.changes[k]));
                                        }
                                    }
                                },
                                Ok((false, _)) => {
                                    let left = h.with_assignment(m, None).metas;
                                    assert(left.take(len as int) =~= left);
                                },
                                Err(_) => {},
                            }
                        },
                    }
                }
            }
        }
    }
}

} // verus!
