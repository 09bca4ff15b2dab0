//! Assigning metavariables, and taking assignments back.
use crate::constraint::{progress, reduce_agrees, reduce_constraint, Progress};
use crate::data::{
    assignment_view, constraint_views, Assignment, AssignmentView, Constraint, ConstraintView,
    Equation, EquationView, Instruction, Linked, Meta, MetaId, MetaView, RedexConstraint,
    RedexView,
};
use crate::ids::{Fault, Ids};
use crate::memory::{without_last, Heap, Store};
use crate::term::args_of;
use crate::types::codomain;
use std::rc::Rc;
use vstd::prelude::*;

verus! {

/// Propagates the constraints `cs` from the `k`th on, for as long as they hold.
pub open spec fn reduce_all(
    h: Heap,
    cs: Seq<ConstraintView>,
    k: nat,
    p: Progress,
    fuel: nat,
) -> Result<(bool, Progress), Fault>
    decreases cs.len() - k,
{
    if k >= cs.len() {
        Ok((true, p))
    } else {
        match reduce_constraint(h, cs[k as int], p, fuel) {
            Err(f) => Err(f),
            Ok((false, p2)) => Ok((false, p2)),
            Ok((true, p2)) => reduce_all(h, cs, k + 1, p2, fuel),
        }
    }
}

/// The constraints that keep the redexes of the bind of an assignment to `m` out.
pub open spec fn redex_constraints(h: Heap, redexes: Seq<Seq<Instruction>>, m: MetaId) -> Seq<
    ConstraintView,
> {
    redexes.map_values(
        |instructions: Seq<Instruction>|
            ConstraintView::Redex(RedexView { instructions, position: 0, blame: m }),
    )
}

/// Whether `m` is assigned, the types on both sides are known, and the bind is in the store.
pub open spec fn testable(h: Heap, m: MetaId) -> bool {
    &&& h.assigned(m)
    &&& h.metas[m as int].assignment->0.var_type is Some
    &&& h.metas[m as int].typ is Some
    &&& h.metas[m as int].assignment->0.bind < h.binds.len()
}

/// What the assignment made to `m` has to respect: the type of the variable at its head is the
/// type of `m`, no redex is made, and what `m` was stuck on goes on.
pub open spec fn obligations(h: Heap, m: MetaId) -> Seq<ConstraintView> {
    let a = h.metas[m as int].assignment->0;
    let premise_type = a.var_type->0;
    let goal_type = h.metas[m as int].typ->0;
    seq![
        ConstraintView::Equation(
            EquationView {
                premise: codomain(premise_type),
                goal: codomain(goal_type),
                premise_type,
                goal_type,
            },
        ),
    ] + redex_constraints(h, h.binds[a.bind as int].redexes, m) + h.metas[m as int].constraints
}

/// The progress at the start of a test of the assignment made to `m`.
pub open spec fn test_start(h: Heap, m: MetaId, ids: Ids, owned: Seq<Rc<Linked>>) -> Progress {
    Progress {
        constraints: Seq::empty(),
        changes: h.metas[m as int].assignment->0.changes,
        effects: crate::term::effects(ids, owned, ()),
    }
}

/// `h` with the changes of the assignment of `m` replaced.
pub open spec fn with_changes(h: Heap, m: MetaId, changes: Seq<MetaId>) -> Heap {
    h.with_assignment(
        m,
        Some(AssignmentView { changes, ..h.metas[m as int].assignment->0 }),
    )
}

/// `h` with the first `n` of the constraints added to the metavariables that they are stuck on.
pub open spec fn imposed(
    h: Heap,
    changes: Seq<MetaId>,
    constraints: Seq<ConstraintView>,
    n: nat,
) -> Heap
    decreases n,
{
    if n == 0 {
        h
    } else {
        let g = imposed(h, changes, constraints, (n - 1) as nat);
        let m = changes[n - 1];
        g.with_constraints(m, g.metas[m as int].constraints.push(constraints[n - 1]))
    }
}

/// `h` with one constraint taken from each of the first `n` metavariables in turn.
pub open spec fn relieved(h: Heap, changes: Seq<MetaId>, n: nat) -> Heap
    decreases n,
{
    if n == 0 {
        h
    } else {
        let g = relieved(h, changes, (n - 1) as nat);
        let m = changes[n - 1];
        g.with_constraints(m, without_last(g.metas[m as int].constraints))
    }
}

/// Whether all of `ms` are in the store.
pub open spec fn present(h: Heap, ms: Seq<MetaId>) -> bool {
    forall|i: int| 0 <= i < ms.len() ==> #[trigger] ms[i] < h.metas.len()
}

/// The smaller of two lengths.
pub open spec fn shorter(a: nat, b: nat) -> nat {
    if a < b {
        a
    } else {
        b
    }
}

/// The changes of all assignments in the term of `m`, those of the arguments first.
pub open spec fn tree_changes(h: Heap, m: MetaId) -> Seq<MetaId>
    decreases h.metas.len() - m, 1nat, 0nat,
{
    if h.assigned(m) {
        args_changes(h, m, args_of(h, m).len()) + h.metas[m as int].assignment->0.changes
    } else {
        Seq::empty()
    }
}

/// The changes of all assignments in the first `k` arguments of `m`.
pub open spec fn args_changes(h: Heap, m: MetaId, k: nat) -> Seq<MetaId>
    decreases h.metas.len() - m, 0nat, k,
{
    if k == 0 || !h.assigned(m) || k > args_of(h, m).len() || !(m
        < args_of(h, m)[k - 1] < h.metas.len()) {
        Seq::empty()
    } else {
        args_changes(h, m, (k - 1) as nat) + tree_changes(h, args_of(h, m)[k - 1])
    }
}

/// Whether `x` occurs in the term of `m`.
pub open spec fn occurs(h: Heap, m: MetaId, x: int) -> bool
    decreases h.metas.len() - m,
{
    x == m || (h.assigned(m) && exists|i: int|
        0 <= i < args_of(h, m).len() && m < #[trigger] args_of(h, m)[i] < h.metas.len() && occurs(
            h,
            args_of(h, m)[i],
            x,
        ))
}

pub proof fn lemma_imposed_shape(
    h: Heap,
    changes: Seq<MetaId>,
    constraints: Seq<ConstraintView>,
    n: nat,
)
    requires
        present(h, changes),
        n <= changes.len(),
    ensures
        imposed(h, changes, constraints, n).metas.len() == h.metas.len(),
        imposed(h, changes, constraints, n).binds == h.binds,
        forall|x: int|
            0 <= x < h.metas.len() ==> (#[trigger] imposed(
                h,
                changes,
                constraints,
                n,
            ).metas[x]).assignment == h.metas[x].assignment,
    decreases n,
{
    if n > 0 {
        lemma_imposed_shape(h, changes, constraints, (n - 1) as nat);
        assert(changes[n - 1] < h.metas.len());
    }
}

pub proof fn lemma_relieved_shape(h: Heap, changes: Seq<MetaId>, n: nat)
    requires
        present(h, changes),
        n <= changes.len(),
    ensures
        relieved(h, changes, n).metas.len() == h.metas.len(),
        relieved(h, changes, n).binds == h.binds,
        forall|x: int|
            0 <= x < h.metas.len() ==> (#[trigger] relieved(h, changes, n).metas[x]).assignment
                == h.metas[x].assignment,
    decreases n,
{
    if n > 0 {
        lemma_relieved_shape(h, changes, (n - 1) as nat);
        assert(changes[n - 1] < h.metas.len());
    }
}

/// Whether the changes of every assignment are in the store.
pub open spec fn all_present(h: Heap) -> bool {
    forall|m: int|
        0 <= m < h.metas.len() && (#[trigger] h.metas[m]).assignment is Some ==> present(
            h,
            h.metas[m].assignment->0.changes,
        )
}

proof fn lemma_tree_present(h: Heap, m: MetaId)
    requires
        all_present(h),
    ensures
        present(h, tree_changes(h, m)),
    decreases h.metas.len() - m, 1nat, 0nat,
{
    if h.assigned(m) {
        lemma_args_present(h, m, args_of(h, m).len());
        assert(h.metas[m as int].assignment is Some);
    }
}

proof fn lemma_args_present(h: Heap, m: MetaId, k: nat)
    requires
        all_present(h),
    ensures
        present(h, args_changes(h, m, k)),
    decreases h.metas.len() - m, 0nat, k,
{
    if k == 0 || !h.assigned(m) || k > args_of(h, m).len() || !(m < args_of(h, m)[k - 1]
        < h.metas.len()) {
    } else {
        lemma_args_present(h, m, (k - 1) as nat);
        lemma_tree_present(h, args_of(h, m)[k - 1]);
    }
}

/// Taking one constraint each from the metavariables of two lists, one list after the other.
proof fn lemma_relieved_concat(h: Heap, a: Seq<MetaId>, b: Seq<MetaId>, n: nat)
    requires
        n <= b.len(),
    ensures
        relieved(h, a + b, (a.len() + n) as nat) == relieved(relieved(h, a, a.len()), b, n),
    decreases n,
{
    if n == 0 {
        lemma_relieved_prefix(h, a, a + b, a.len());
    } else {
        lemma_relieved_concat(h, a, b, (n - 1) as nat);
        assert((a + b)[a.len() + n - 1] == b[n - 1]);
    }
}

/// Only the first `n` entries of the list matter.
proof fn lemma_relieved_prefix(h: Heap, a: Seq<MetaId>, b: Seq<MetaId>, n: nat)
    requires
        n <= a.len(),
        n <= b.len(),
        forall|i: int| 0 <= i < n ==> #[trigger] a[i] == b[i],
    ensures
        relieved(h, a, n) == relieved(h, b, n),
    decreases n,
{
    if n > 0 {
        lemma_relieved_prefix(h, a, b, (n - 1) as nat);
    }
}

impl Meta {
    /// Checks that the assignment made to `this` does not violate a constraint.
    /// If successful, outputs the new constraints and updates the `changes` of the assignment.
    pub fn test_assignment(
        store: &mut Store,
        this: MetaId,
        fuel: usize,
        ids: &mut Ids,
        owned_linked: &mut Vec<Rc<Linked>>,
    ) -> (r: Result<Option<Vec<Constraint>>, Fault>)
        requires
            testable(old(store)@, this),
        ensures
            ({
                let expected = reduce_all(
                    old(store)@,
                    obligations(old(store)@, this),
                    0,
                    test_start(old(store)@, this, *old(ids), old(owned_linked)@),
                    fuel as nat,
                );
                match r {
                    Ok(Some(constraints)) => {
                        &&& expected matches Ok((true, p))
                        &&& p.constraints == constraint_views(constraints@)
                        &&& p.effects == crate::term::effects(
                            *final(ids),
                            final(owned_linked)@,
                            (),
                        )
                        &&& final(store)@ == with_changes(old(store)@, this, p.changes)
                    },
                    Ok(None) => {
                        &&& expected matches Ok((false, p))
                        &&& p.effects == crate::term::effects(
                            *final(ids),
                            final(owned_linked)@,
                            (),
                        )
                        &&& final(store)@ == with_changes(old(store)@, this, p.changes)
                    },
                    Err(f) => expected == Err::<(bool, Progress), Fault>(f) && final(store)@ == old(
                        store,
                    )@,
                }
            }),
            old(owned_linked)@.is_prefix_of(final(owned_linked)@),
    {
        let mut constraints: Vec<Constraint> = Vec::new();
        let mut changes: Vec<MetaId> = Vec::new();
        let checked: Result<bool, Fault> = check(
            store,
            this,
            fuel,
            ids,
            &mut constraints,
            &mut changes,
            owned_linked,
        );
        match checked {
            Err(f) => Err(f),
            Ok(holds) => {
                match store.swap_assignment(this, None) {
                    None => {},
                    Some(mut assn) => {
                        assn.changes = changes;
                        store.swap_assignment(this, Some(assn));
                    },
                }
                assert(store@.metas =~= with_changes(old(store)@, this, changes@).metas);
                if holds {
                    Ok(Some(constraints))
                } else {
                    Ok(None)
                }
            },
        }
    }

    /// Perform an (already tested) assignment.
    pub fn assign(
        store: &mut Store,
        this: MetaId,
        assn: Assignment,
        constraints: Vec<Constraint>,
    )
        requires
            this < old(store)@.metas.len(),
            present(old(store)@, assn@.changes),
        ensures
            final(store)@ == imposed(
                old(store)@,
                assn@.changes,
                constraint_views(constraints@),
                shorter(assn@.changes.len(), constraints@.len()),
            ).with_assignment(this, Some(assn@)),
    {
        // store constraints with their stuck metavariable
        let ghost all = constraint_views(constraints@);
        let mut rest: Vec<Constraint> = Vec::new();
        let mut constraints = constraints;
        let ghost given = constraints@;
        // Reverse the constraints, so that they can be taken from the end in their order.
        while constraints.len() > 0
            invariant
                constraints@.len() <= given.len(),
                constraints@ == given.take(constraints@.len() as int),
                rest@ == given.skip(constraints@.len() as int).reverse(),
            decreases constraints@.len(),
        {
            let ghost n = constraints@.len() as int;
            match constraints.pop() {
                None => {},
                Some(c) => {
                    rest.push(c);
                    assert(given.take(n).drop_last() =~= given.take(n - 1));
                    assert(given.skip(n - 1).reverse() =~= given.skip(n).reverse().push(
                        given[n - 1],
                    ));
                },
            }
        }
        assert(given.skip(0) =~= given);
        let mut i: usize = 0;
        while i < assn.changes.len() && rest.len() > 0
            invariant
                i <= assn.changes@.len(),
                i + rest@.len() == given.len(),
                all == constraint_views(given),
                rest@ == given.skip(i as int).reverse(),
                present(old(store)@, assn@.changes),
                store@ == imposed(old(store)@, assn@.changes, all, i as nat),
                store@.metas.len() == old(store)@.metas.len(),
            decreases rest@.len(),
        {
            let m: MetaId = assn.changes[i];
            assert(assn@.changes[i as int] < old(store)@.metas.len());
            assert(rest@[rest@.len() - 1] == given[i as int]);
            assert(given.skip(i as int).reverse().drop_last() =~= given.skip(i + 1).reverse());
            match rest.pop() {
                None => {},
                Some(c) => {
                    assert(all[i as int] == c@);
                    store.push_constraint(m, c);
                },
            }
            i = i + 1;
        }
        store.swap_assignment(this, Some(assn));
    }

    /// Unassign the metavariable, returning constraints to their pre-assignment state. Gives
    /// the assignment that was made.
    pub fn unassign(store: &mut Store, this: MetaId) -> (r: Option<Assignment>)
        requires
            this < old(store)@.metas.len(),
            old(store)@.metas[this as int].assignment matches Some(a) ==> present(
                old(store)@,
                a.changes,
            ),
        ensures
            assignment_view(r) == old(store)@.metas[this as int].assignment,
            final(store)@ == match old(store)@.metas[this as int].assignment {
                None => old(store)@,
                Some(a) => relieved(
                    old(store)@.with_assignment(this, None),
                    a.changes,
                    a.changes.len(),
                ),
            },
    {
        let taken = store.swap_assignment(this, None);
        match &taken {
            None => {
                assert(store@.metas =~= old(store)@.metas);
            },
            Some(assn) => {
                relieve(store, &assn.changes);
            },
        }
        taken
    }

    /// Takes back the constraints of every assignment in the term of `this`.
    pub fn pop_recursive(store: &mut Store, this: MetaId)
        requires
            old(store)@.ordered(),
            this < old(store)@.metas.len(),
            all_present(old(store)@),
        ensures
            final(store)@ == relieved(
                old(store)@,
                tree_changes(old(store)@, this),
                tree_changes(old(store)@, this).len(),
            ),
        decreases old(store)@.metas.len() - this,
    {
        let (args, changes): (Rc<Vec<MetaId>>, Vec<MetaId>) = match &store.meta(this).assignment {
            None => {
                return ;
            },
            Some(a) => (a.args.clone(), copy_ids(&a.changes)),
        };
        let ghost h = store@;
        let mut i: usize = 0;
        while i < args.len()
            invariant
                i <= args@.len(),
                h == old(store)@,
                h.ordered(),
                h.assigned(this),
                args@ == args_of(h, this),
                all_present(h),
                store@ == relieved(
                    h,
                    args_changes(h, this, i as nat),
                    args_changes(h, this, i as nat).len(),
                ),
            decreases args@.len() - i,
        {
            let arg: MetaId = args[i];
            let ghost done = args_changes(h, this, i as nat);
            proof {
                lemma_args_present(h, this, i as nat);
                lemma_relieved_shape(h, done, done.len());
                assert(all_present(store@)) by {
                    assert forall|m: int|
                        0 <= m < store@.metas.len() && (#[trigger] store@.metas[m]).assignment
                            is Some implies present(
                        store@,
                        store@.metas[m].assignment->0.changes,
                    ) by {
                        assert(h.metas[m].assignment == store@.metas[m].assignment);
                    }
                }
                assert(h.metas[this as int].assignment->0.args[i as int] == arg);
                lemma_same_changes(h, store@, arg);
                lemma_same_order(h, store@);
            }
            let ghost mid = store@;
            Meta::pop_recursive(store, arg);
            proof {
                let more = tree_changes(h, arg);
                lemma_relieved_concat(h, done, more, more.len());
                assert(args_changes(h, this, (i + 1) as nat) == done + more);
            }
            i = i + 1;
        }
        let ghost done = args_changes(h, this, args_of(h, this).len());
        proof {
            lemma_args_present(h, this, args_of(h, this).len());
            lemma_relieved_shape(h, done, done.len());
            assert(h.metas[this as int].assignment is Some);
            lemma_relieved_concat(h, done, changes@, changes@.len());
            assert(present(store@, changes@));
        }
        relieve(store, &changes);
    }

    /// Unassigns every metavariable in the term of `this`.
    pub fn unassign_recursive(store: &mut Store, this: MetaId)
        requires
            old(store)@.ordered(),
            this < old(store)@.metas.len(),
        ensures
            final(store)@.binds == old(store)@.binds,
            final(store)@.metas.len() == old(store)@.metas.len(),
            forall|x: int|
                0 <= x < old(store)@.metas.len() ==> #[trigger] final(store)@.metas[x] == if occurs(
                    old(store)@,
                    this,
                    x,
                ) {
                    MetaView { assignment: None, ..old(store)@.metas[x] }
                } else {
                    old(store)@.metas[x]
                },
        decreases old(store)@.metas.len() - this,
    {
        let args: Rc<Vec<MetaId>> = match &store.meta(this).assignment {
            None => {
                assert(forall|x: int|
                    0 <= x < store@.metas.len() && x != this ==> !#[trigger] occurs(
                        store@,
                        this,
                        x,
                    ));
                return ;
            },
            Some(a) => a.args.clone(),
        };
        let ghost h = store@;
        let mut i: usize = 0;
        while i < args.len()
            invariant
                i <= args@.len(),
                h == old(store)@,
                h.ordered(),
                h.assigned(this),
                args@ == args_of(h, this),
                store@.binds == h.binds,
                cleared(h, store@, this, i as int),
            decreases args@.len() - i,
        {
            let arg: MetaId = args[i];
            let ghost mid = store@;
            proof {
                assert(h.metas[this as int].assignment->0.args[i as int] == arg);
                lemma_cleared_order(h, mid, this, i as int);
            }
            Meta::unassign_recursive(store, arg);
            proof {
                lemma_cleared_step(h, mid, store@, this, i as int);
            }
            i = i + 1;
        }
        store.swap_assignment(this, None);
        assert forall|x: int| 0 <= x < h.metas.len() implies #[trigger] store@.metas[x] == if occurs(
            h,
            this,
            x,
        ) {
            MetaView { assignment: None, ..h.metas[x] }
        } else {
            h.metas[x]
        } by {
            if x != this {
                if occurs(h, this, x) {
                    let k = choose|k: int|
                        0 <= k < args_of(h, this).len() && this < #[trigger] args_of(h, this)[k]
                            < h.metas.len() && occurs(h, args_of(h, this)[k], x);
                    assert(occurs(h, args_of(h, this)[k], x));
                    assert(under(h, this, args@.len() as int, x));
                }
            }
        }
    }
}

/// Whether `x` occurs in one of the first `k` arguments of `m`.
spec fn under(h: Heap, m: MetaId, k: int, x: int) -> bool {
    exists|i: int|
        0 <= i < k && i < args_of(h, m).len() && m < #[trigger] args_of(h, m)[i] < h.metas.len()
            && occurs(h, args_of(h, m)[i], x)
}

/// Whether `g` is `h` with everything in the first `k` arguments of `m` unassigned.
spec fn cleared(h: Heap, g: Heap, m: MetaId, k: int) -> bool {
    &&& g.metas.len() == h.metas.len()
    &&& forall|x: int|
        0 <= x < h.metas.len() ==> #[trigger] g.metas[x] == if under(h, m, k, x) {
            MetaView { assignment: None, ..h.metas[x] }
        } else {
            h.metas[x]
        }
}

proof fn lemma_cleared_order(h: Heap, g: Heap, m: MetaId, k: int)
    requires
        h.ordered(),
        cleared(h, g, m, k),
    ensures
        g.ordered(),
{
    assert forall|x: int, i: int|
        #![trigger g.metas[x].assignment->0.args[i]]
        0 <= x < g.metas.len() && g.metas[x].assignment is Some && 0 <= i
            < g.metas[x].assignment->0.args.len() implies x < g.metas[x].assignment->0.args[i]
        < g.metas.len() by {
        assert(g.metas[x] == h.metas[x]);
        assert(h.metas[x].assignment->0.args[i] == g.metas[x].assignment->0.args[i]);
    }
}

/// Occurring is transitive.
proof fn lemma_occurs_trans(h: Heap, a: MetaId, b: MetaId, c: int)
    requires
        occurs(h, a, b as int),
        occurs(h, b, c),
    ensures
        occurs(h, a, c),
    decreases h.metas.len() - a,
{
    if a != b {
        let i = choose|i: int|
            0 <= i < args_of(h, a).len() && a < #[trigger] args_of(h, a)[i] < h.metas.len()
                && occurs(h, args_of(h, a)[i], b as int);
        lemma_occurs_trans(h, args_of(h, a)[i], b, c);
        assert(occurs(h, args_of(h, a)[i], c));
    }
}

/// What occurs in `a` after the first `k` arguments of `m` are cleared occurred in it before;
/// and what occurred in it before either still does, or is among what was cleared.
proof fn lemma_cleared_occurs(h: Heap, g: Heap, m: MetaId, k: int, a: MetaId, x: int)
    requires
        h.ordered(),
        cleared(h, g, m, k),
        m < a < h.metas.len(),
        0 <= x < h.metas.len(),
    ensures
        occurs(g, a, x) ==> occurs(h, a, x),
        occurs(h, a, x) ==> occurs(g, a, x) || under(h, m, k, x),
    decreases h.metas.len() - a,
{
    if x != a {
        if occurs(g, a, x) {
            let i = choose|i: int|
                0 <= i < args_of(g, a).len() && a < #[trigger] args_of(g, a)[i] < g.metas.len()
                    && occurs(g, args_of(g, a)[i], x);
            assert(g.metas[a as int] == h.metas[a as int]);
            assert(h.metas[a as int].assignment->0.args[i] == args_of(g, a)[i]);
            lemma_cleared_occurs(h, g, m, k, args_of(h, a)[i], x);
            assert(occurs(h, args_of(h, a)[i], x));
        }
        if occurs(h, a, x) {
            let i = choose|i: int|
                0 <= i < args_of(h, a).len() && a < #[trigger] args_of(h, a)[i] < h.metas.len()
                    && occurs(h, args_of(h, a)[i], x);
            assert(h.metas[a as int].assignment->0.args[i] == args_of(h, a)[i]);
            if under(h, m, k, a as int) {
                let j = choose|j: int|
                    0 <= j < k && j < args_of(h, m).len() && m < #[trigger] args_of(h, m)[j]
                        < h.metas.len() && occurs(h, args_of(h, m)[j], a as int);
                lemma_occurs_trans(h, args_of(h, m)[j], a, x);
                assert(occurs(h, args_of(h, m)[j], x));
                assert(under(h, m, k, x));
            } else {
                assert(g.metas[a as int] == h.metas[a as int]);
                lemma_cleared_occurs(h, g, m, k, args_of(h, a)[i], x);
                if occurs(g, args_of(g, a)[i], x) {
                    assert(args_of(g, a)[i] == args_of(h, a)[i]);
                    assert(occurs(g, a, x));
                }
            }
        }
    }
}

proof fn lemma_cleared_step(h: Heap, mid: Heap, g: Heap, m: MetaId, k: int)
    requires
        h.ordered(),
        h.assigned(m),
        0 <= k < args_of(h, m).len(),
        m < args_of(h, m)[k] < h.metas.len(),
        cleared(h, mid, m, k),
        g.metas.len() == mid.metas.len(),
        forall|x: int|
            0 <= x < mid.metas.len() ==> #[trigger] g.metas[x] == if occurs(
                mid,
                args_of(h, m)[k],
                x,
            ) {
                MetaView { assignment: None, ..mid.metas[x] }
            } else {
                mid.metas[x]
            },
    ensures
        cleared(h, g, m, k + 1),
{
    let a = args_of(h, m)[k];
    assert forall|x: int| 0 <= x < h.metas.len() implies #[trigger] g.metas[x] == if under(
        h,
        m,
        k + 1,
        x,
    ) {
        MetaView { assignment: None, ..h.metas[x] }
    } else {
        h.metas[x]
    } by {
        lemma_cleared_occurs(h, mid, m, k, a, x);
        if under(h, m, k, x) {
            let j = choose|j: int|
                0 <= j < k && j < args_of(h, m).len() && m < #[trigger] args_of(h, m)[j]
                    < h.metas.len() && occurs(h, args_of(h, m)[j], x);
            assert(0 <= j < k + 1 && m < args_of(h, m)[j] && occurs(
                h,
                args_of(h, m)[j],
                x,
            ));
            assert(under(h, m, k + 1, x));
        }
        if under(h, m, k + 1, x) && !under(h, m, k, x) {
            assert(occurs(h, a, x));
        }
        if occurs(h, a, x) {
            assert(under(h, m, k + 1, x));
        }
    }
}

/// Where the assignments are the same, so is the order.
proof fn lemma_same_order(h: Heap, g: Heap)
    requires
        h.ordered(),
        g.metas.len() == h.metas.len(),
        forall|x: int|
            0 <= x < h.metas.len() ==> (#[trigger] g.metas[x]).assignment == h.metas[x].assignment,
    ensures
        g.ordered(),
{
    assert forall|x: int, i: int|
        #![trigger g.metas[x].assignment->0.args[i]]
        0 <= x < g.metas.len() && g.metas[x].assignment is Some && 0 <= i
            < g.metas[x].assignment->0.args.len() implies x < g.metas[x].assignment->0.args[i]
        < g.metas.len() by {
        assert(h.metas[x].assignment->0.args[i] == g.metas[x].assignment->0.args[i]);
    }
}

/// Where the assignments are the same, so are the changes.
proof fn lemma_same_changes(h: Heap, g: Heap, m: MetaId)
    requires
        g.metas.len() == h.metas.len(),
        forall|x: int|
            0 <= x < h.metas.len() ==> (#[trigger] g.metas[x]).assignment == h.metas[x].assignment,
    ensures
        tree_changes(g, m) == tree_changes(h, m),
    decreases h.metas.len() - m, 1nat, 0nat,
{
    if h.assigned(m) {
        assert(g.metas[m as int].assignment == h.metas[m as int].assignment);
        lemma_same_args_changes(h, g, m, args_of(h, m).len());
    }
}

proof fn lemma_same_args_changes(h: Heap, g: Heap, m: MetaId, k: nat)
    requires
        g.metas.len() == h.metas.len(),
        forall|x: int|
            0 <= x < h.metas.len() ==> (#[trigger] g.metas[x]).assignment == h.metas[x].assignment,
        h.assigned(m),
    ensures
        args_changes(g, m, k) == args_changes(h, m, k),
    decreases h.metas.len() - m, 0nat, k,
{
    assert(g.metas[m as int].assignment == h.metas[m as int].assignment);
    if k == 0 || k > args_of(h, m).len() || !(m
        < args_of(h, m)[k - 1] < h.metas.len()) {
    } else {
        lemma_same_args_changes(h, g, m, (k - 1) as nat);
        lemma_same_changes(h, g, args_of(h, m)[k - 1]);
    }
}

/// A copy of a list of positions.
pub fn copy_ids(v: &Vec<MetaId>) -> (r: Vec<MetaId>)
    ensures
        r@ == v@,
{
    let mut r: Vec<MetaId> = Vec::new();
    let mut i: usize = 0;
    while i < v.len()
        invariant
            i <= v@.len(),
            r@ == v@.take(i as int),
        decreases v@.len() - i,
    {
        r.push(v[i]);
        assert(v@.take(i + 1) =~= v@.take(i as int).push(v@[i as int]));
        i = i + 1;
    }
    assert(v@.take(i as int) =~= v@);
    r
}

/// Takes one constraint from each of the metavariables in turn.
fn relieve(store: &mut Store, changes: &Vec<MetaId>)
    requires
        present(old(store)@, changes@),
    ensures
        final(store)@ == relieved(old(store)@, changes@, changes@.len()),
{
    let mut i: usize = 0;
    while i < changes.len()
        invariant
            i <= changes@.len(),
            present(old(store)@, changes@),
            store@ == relieved(old(store)@, changes@, i as nat),
            store@.metas.len() == old(store)@.metas.len(),
        decreases changes@.len() - i,
    {
        assert(changes@[i as int] < old(store)@.metas.len());
        store.pop_constraint(changes[i]);
        i = i + 1;
    }
}

/// Propagates the obligations of the assignment made to `this`.
fn check(
    store: &Store,
    this: MetaId,
    fuel: usize,
    ids: &mut Ids,
    constraints: &mut Vec<Constraint>,
    changes: &mut Vec<MetaId>,
    owned_linked: &mut Vec<Rc<Linked>>,
) -> (r: Result<bool, Fault>)
    requires
        testable(store@, this),
        old(constraints)@.len() == 0,
    ensures
        reduce_agrees(
            r,
            progress(final(constraints)@, final(changes)@, *final(ids), final(owned_linked)@),
            reduce_all(
                store@,
                obligations(store@, this),
                0,
                test_start(store@, this, *old(ids), old(owned_linked)@),
                fuel as nat,
            ),
        ),
        old(owned_linked)@.is_prefix_of(final(owned_linked)@),
{
    let meta = store.meta(this);
    let assn: &Assignment = meta.assignment.as_ref().unwrap();
    *changes = copy_ids(&assn.changes);
    let ghost all = obligations(store@, this);
    let ghost goal = reduce_all(
        store@,
        all,
        0,
        test_start(store@, this, *ids, owned_linked@),
        fuel as nat,
    );
    let premise_type = assn.var_type.as_ref().unwrap().clone();
    let goal_type = meta.typ.as_ref().unwrap().clone();
    assert(constraint_views(constraints@) =~= Seq::empty());
    // check the type of `this` with the codomain of the `var_type`
    let q = Equation {
        premise: premise_type.codomain(),
        goal: goal_type.codomain(),
        premise_type,
        goal_type,
    };
    assert(all[0] == ConstraintView::Equation(q@));
    match q.reduce(store, fuel, ids, constraints, changes, owned_linked) {
        Err(f) => {
            return Err(f);
        },
        Ok(holds) => {
            if !holds {
                return Ok(false);
            }
        },
    }
    let bind = store.bind(assn.bind);
    let mut i: usize = 0;
    while i < bind.redexes.len()
        invariant
            i <= bind.redexes@.len(),
            testable(store@, this),
            all == obligations(store@, this),
            bind@ == store@.binds[store@.metas[this as int].assignment->0.bind as int],
            goal == reduce_all(
                store@,
                all,
                0,
                test_start(store@, this, *old(ids), old(owned_linked)@),
                fuel as nat,
            ),
            goal == reduce_all(
                store@,
                all,
                (1 + i) as nat,
                progress(constraints@, changes@, *ids, owned_linked@),
                fuel as nat,
            ),
            old(owned_linked)@.is_prefix_of(owned_linked@),
        decreases bind.redexes@.len() - i,
    {
        let redex = RedexConstraint {
            instructions: bind.redexes[i].clone(),
            position: 0,
            blame: this,
        };
        assert(all[1 + i as int] == ConstraintView::Redex(redex@));
        match redex.reduce(store, constraints, changes) {
            Err(f) => {
                return Err(f);
            },
            Ok(holds) => {
                if !holds {
                    return Ok(false);
                }
            },
        }
        i = i + 1;
    }
    let ghost n = 1 + bind.redexes@.len();
    let mut j: usize = 0;
    while j < meta.constraints.len()
        invariant
            j <= meta.constraints@.len(),
            testable(store@, this),
            all == obligations(store@, this),
            meta@ == store@.metas[this as int],
            n == 1 + store@.binds[store@.metas[this as int].assignment->0.bind as int].redexes.len(),
            goal == reduce_all(
                store@,
                all,
                0,
                test_start(store@, this, *old(ids), old(owned_linked)@),
                fuel as nat,
            ),
            goal == reduce_all(
                store@,
                all,
                (n + j) as nat,
                progress(constraints@, changes@, *ids, owned_linked@),
                fuel as nat,
            ),
            old(owned_linked)@.is_prefix_of(owned_linked@),
        decreases meta.constraints@.len() - j,
    {
        let c: &Constraint = &meta.constraints[j];
        assert(meta@.constraints[j as int] == c@);
        assert(all[n + j] == c@);
        match c.reduce(store, fuel, ids, constraints, changes, owned_linked) {
            Err(f) => {
                return Err(f);
            },
            Ok(holds) => {
                if !holds {
                    return Ok(false);
                }
            },
        }
        j = j + 1;
    }
    Ok(true)
}

} // verus!
