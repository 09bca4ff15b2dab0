//! Constraints on metavariables, and how they propagate.
use crate::data::{
    constraint_views, Constraint, ConstraintView, Entry, Equation, EquationView, Head, Instruction,
    Linked, MetaId, RedexConstraint, RedexView, WHNF,
};
use crate::es::{fits, gathered, links, vars_entry};
use crate::ids::{next_u64, Fault, Ids, STRIDE};
use crate::memory::{Heap, Store};
use crate::term::{arg_bindings, args_of, argument, effects, has_arg, whnf, Effects};
use std::rc::Rc;
use vstd::prelude::*;

verus! {

/// What propagation has come to so far: the constraints that are stuck, the metavariables that
/// they are stuck on, in the same order, and the effects.
#[verifier::ext_equal]
pub struct Progress {
    pub constraints: Seq<ConstraintView>,
    pub changes: Seq<MetaId>,
    pub effects: Effects,
}

impl Progress {
    /// The progress after finding that `c` is stuck on `m`.
    pub open spec fn stuck(self, c: ConstraintView, m: MetaId) -> Progress {
        Progress { constraints: self.constraints.push(c), changes: self.changes.push(m), ..self }
    }

    /// The progress with other effects.
    pub open spec fn with(self, effects: Effects) -> Progress {
        Progress { effects, ..self }
    }
}

/// The number of links that may be made before an equation counts as violated.
pub const LINK_LIMIT: usize = 1000;

/// Breaks the equation `q` down into equations that are stuck on metavariables. It does not
/// hold where two different variables meet, nor where too many links have been made.
pub open spec fn reduce_equation(h: Heap, q: EquationView, p: Progress, fuel: nat) -> Result<
    (bool, Progress),
    Fault,
>
    decreases fuel, 1nat, 0nat,
{
    if p.effects.links > LINK_LIMIT {
        Ok((false, p))
    } else if fuel == 0 {
        Err(Fault::Overflow)
    } else {
        match whnf(h, q.premise, true, false, (fuel - 1) as nat, p.effects) {
            Err(f) => Err(f),
            Ok((premise, e)) => match premise.head {
                Head::Meta(lhs) => Ok(
                    (
                        true,
                        p.with(e).stuck(
                            ConstraintView::Equation(EquationView { premise: premise.term, ..q }),
                            lhs,
                        ),
                    ),
                ),
                Head::Var(lhs) => match whnf(h, q.goal, true, false, (fuel - 1) as nat, e) {
                    Err(f) => Err(f),
                    Ok((goal, e2)) => match goal.head {
                        Head::Meta(rhs) => Ok(
                            (
                                true,
                                p.with(e2).stuck(
                                    ConstraintView::Equation(
                                        EquationView { premise: premise.term, goal: goal.term, ..q },
                                    ),
                                    rhs,
                                ),
                            ),
                        ),
                        Head::Var(rhs) => if !lhs.same(rhs) {
                            Ok((false, p.with(e2)))
                        } else if !e2.can_draw(1) {
                            Err(Fault::Exhausted)
                        } else if !h.assigned(premise.term.base) {
                            Err(Fault::Malformed)
                        } else {
                            reduce_args(
                                h,
                                EquationView { premise: premise.term, goal: goal.term, ..q },
                                e2.next,
                                0,
                                p.with(e2.plus(1, 0)),
                                (fuel - 1) as nat,
                            )
                        },
                    },
                },
            },
        }
    }
}

/// Breaks down the equations between the arguments of the two sides of `q`, from the `i`th on.
/// The local variables of both arguments have the identifier `var_id`.
pub open spec fn reduce_args(
    h: Heap,
    q: EquationView,
    var_id: u64,
    i: nat,
    p: Progress,
    fuel: nat,
) -> Result<(bool, Progress), Fault>
    decreases fuel + 1, 0nat, args_of(h, q.premise.base).len() - i,
{
    if i >= args_of(h, q.premise.base).len() {
        Ok((true, p))
    } else if !has_arg(h, q.premise, i as int) || !has_arg(h, q.goal, i as int) {
        Err(Fault::Malformed)
    } else if !p.effects.can_draw(2) {
        Err(Fault::Exhausted)
    } else {
        let left = vars_entry(var_id, p.effects.next);
        let right = vars_entry(var_id, (p.effects.next + STRIDE) as u64);
        let made = links(arg_bindings(h, q.premise, i as int)) + links(
            arg_bindings(h, q.goal, i as int),
        );
        let next = EquationView {
            premise: argument(h, q.premise, i as int, left),
            goal: argument(h, q.goal, i as int, right),
            ..q
        };
        match reduce_equation(h, next, p.with(p.effects.plus(2, made)), fuel) {
            Err(f) => Err(f),
            Ok((false, p2)) => Ok((false, p2)),
            Ok((true, p2)) => reduce_args(h, q, var_id, i + 1, p2, fuel),
        }
    }
}

/// The metavariable that is `n` parents above `m`.
pub open spec fn ancestor(h: Heap, m: MetaId, n: nat) -> Option<MetaId>
    decreases n,
{
    if n == 0 {
        Some(m)
    } else if m >= h.metas.len() {
        None
    } else {
        match h.metas[m as int].parent {
            None => None,
            Some(p) => ancestor(h, p, (n - 1) as nat),
        }
    }
}

/// What following the instructions of a redex came to.
pub enum Walk {
    /// The next metavariable is unassigned.
    Stuck(nat, MetaId),
    /// A bind other than the one to be met is there.
    Differs,
    /// All binds were met.
    Complete,
}

/// Follows the instructions from the `i`th on, starting at `blame`.
pub open spec fn walk(h: Heap, instructions: Seq<Instruction>, i: nat, blame: MetaId) -> Result<
    Walk,
    Fault,
>
    decreases instructions.len() - i,
{
    if blame >= h.metas.len() {
        Err(Fault::Malformed)
    } else {
        match h.metas[blame as int].assignment {
            None => Ok(Walk::Stuck(i, blame)),
            Some(a) => if i >= instructions.len() {
                Err(Fault::Malformed)
            } else if a.bind != instructions[i as int].bind {
                Ok(Walk::Differs)
            } else if i == instructions.len() - 1 {
                Ok(Walk::Complete)
            } else {
                match ancestor(h, blame, instructions[i as int].parents as nat) {
                    None => Err(Fault::Malformed),
                    Some(m) => {
                        let child = instructions[i as int].child as int;
                        if !h.assigned(m) || child >= args_of(h, m).len() {
                            Err(Fault::Malformed)
                        } else {
                            walk(h, instructions, i + 1, args_of(h, m)[child])
                        }
                    },
                }
            },
        }
    }
}

/// Follows the redex for as long as the metavariables are assigned. It is violated where the
/// whole redex is there.
pub open spec fn reduce_redex(h: Heap, r: RedexView, p: Progress) -> Result<
    (bool, Progress),
    Fault,
> {
    match walk(h, r.instructions, r.position as nat, r.blame) {
        Err(f) => Err(f),
        Ok(Walk::Stuck(i, m)) => Ok(
            (
                true,
                p.stuck(
                    ConstraintView::Redex(RedexView { position: i as usize, blame: m, ..r }),
                    m,
                ),
            ),
        ),
        Ok(Walk::Differs) => Ok((true, p)),
        Ok(Walk::Complete) => Ok((false, p)),
    }
}

/// Propagates a constraint.
pub open spec fn reduce_constraint(h: Heap, c: ConstraintView, p: Progress, fuel: nat) -> Result<
    (bool, Progress),
    Fault,
> {
    match c {
        ConstraintView::Equation(q) => reduce_equation(h, q, p, fuel),
        ConstraintView::Redex(r) => reduce_redex(h, r, p),
    }
}

/// Whether the result `r` with the given progress is the `expected` one.
pub open spec fn reduce_agrees(
    r: Result<bool, Fault>,
    p: Progress,
    expected: Result<(bool, Progress), Fault>,
) -> bool {
    match r {
        Ok(b) => expected == Ok::<(bool, Progress), Fault>((b, p)),
        Err(f) => expected == Err::<(bool, Progress), Fault>(f),
    }
}

/// The progress so far.
pub open spec fn progress(
    constraints: Seq<Constraint>,
    changes: Seq<MetaId>,
    ids: Ids,
    owned: Seq<Rc<Linked>>,
) -> Progress {
    Progress {
        constraints: constraint_views(constraints),
        changes,
        effects: effects(ids, owned, ()),
    }
}

/// Whether `c` enforces an assignment on the metavariable that it is stuck on: one side of the
/// equation is a variable. Also gives the next identifier.
pub open spec fn is_rigid(h: Heap, c: ConstraintView, next: u64, fuel: nat) -> Result<
    (bool, u64),
    Fault,
> {
    match c {
        ConstraintView::Redex(_) => Ok((false, next)),
        ConstraintView::Equation(q) => match whnf(h, q.premise, true, false, fuel, fresh(next)) {
            Err(f) => Err(f),
            Ok((w, e)) => if w.head is Var {
                Ok((true, e.next))
            } else {
                match whnf(h, q.goal, true, false, fuel, fresh(e.next)) {
                    Err(f) => Err(f),
                    Ok((w2, e2)) => Ok((w2.head is Var, e2.next)),
                }
            },
        },
    }
}

/// The effects at the start of a reduction whose links nobody counts.
pub open spec fn fresh(next: u64) -> Effects {
    Effects { next, links: 0, noted: Seq::empty() }
}

/// Whether the lookups for the metavariables of `c` can be made.
pub open spec fn constraint_fits(c: ConstraintView) -> bool {
    match c {
        ConstraintView::Redex(_) => true,
        ConstraintView::Equation(q) => fits(q.goal_type.es, q.goal_type.base.codomain_mvars@)
            && fits(q.premise_type.es, q.premise_type.base.codomain_mvars@),
    }
}

/// The metavariables that occur in the types whose equality `c` is about.
pub open spec fn constraint_involved(c: ConstraintView) -> Seq<MetaId> {
    match c {
        ConstraintView::Redex(_) => Seq::empty(),
        ConstraintView::Equation(q) => gathered(
            q.goal_type.es,
            q.goal_type.base.codomain_mvars@,
            q.goal_type.es.len() as int,
        ) + gathered(
            q.premise_type.es,
            q.premise_type.base.codomain_mvars@,
            q.premise_type.es.len() as int,
        ),
    }
}

impl Equation {
    /// Break down the equation into equations that are stuck on metavariables, added to `constraints`.
    /// Returns false if the equation is violated.
    pub fn reduce(
        &self,
        store: &Store,
        fuel: usize,
        ids: &mut Ids,
        constraints: &mut Vec<Constraint>,
        changes: &mut Vec<MetaId>,
        owned_linked: &mut Vec<Rc<Linked>>,
    ) -> (r: Result<bool, Fault>)
        ensures
            reduce_agrees(
                r,
                progress(final(constraints)@, final(changes)@, *final(ids), final(owned_linked)@),
                reduce_equation(
                    store@,
                    self@,
                    progress(old(constraints)@, old(changes)@, *old(ids), old(owned_linked)@),
                    fuel as nat,
                ),
            ),
            old(owned_linked)@.is_prefix_of(final(owned_linked)@),
        decreases fuel,
    {
        if owned_linked.len() > LINK_LIMIT {
            return Ok(false);
        }
        if fuel == 0 {
            return Err(Fault::Overflow);
        }
        // Reduce both sides of the equation.
        let (premise, lhs) = match self.premise.whnf::<true, ()>(
            store,
            fuel - 1,
            ids,
            owned_linked,
            &mut (),
        ) {
            Err(f) => {
                return Err(f);
            },
            Ok(WHNF(premise, Head::Meta(lhs))) => {
                // premise is stuck, add an equation associated with its metavariable.
                stick(
                    Constraint::Equation(
                        Equation {
                            premise,
                            goal: self.goal.clone(),
                            premise_type: self.premise_type.clone(),
                            goal_type: self.goal_type.clone(),
                        },
                    ),
                    lhs,
                    constraints,
                    changes,
                );
                return Ok(true);
            },
            Ok(WHNF(premise, Head::Var(lhs))) => (premise, lhs),
        };
        let (goal, rhs) = match self.goal.whnf::<true, ()>(
            store,
            fuel - 1,
            ids,
            owned_linked,
            &mut (),
        ) {
            Err(f) => {
                return Err(f);
            },
            Ok(WHNF(goal, Head::Meta(rhs))) => {
                // goal is stuck, add an equation associated with its metavariable.
                stick(
                    Constraint::Equation(
                        Equation {
                            premise,
                            goal,
                            premise_type: self.premise_type.clone(),
                            goal_type: self.goal_type.clone(),
                        },
                    ),
                    rhs,
                    constraints,
                    changes,
                );
                return Ok(true);
            },
            Ok(WHNF(goal, Head::Var(rhs))) => (goal, rhs),
        };
        // If the head symbols are not equal, the equation is violated.
        if lhs != rhs {
            return Ok(false);
        }
        if !ids.ready() {
            return Err(Fault::Exhausted);
        }
        if !store.has_meta(premise.base) {
            return Err(Fault::Malformed);
        }
        let n: usize = match &store.meta(premise.base).assignment {
            None => {
                return Err(Fault::Malformed);
            },
            Some(a) => a.args.len(),
        };
        // Identifier for the variables bound by the arguments of premise and goal.
        let var_id: u64 = next_u64(ids);
        // Check that the arguments of premise and goal are equal.
        let ghost sides = EquationView { premise: premise@, goal: goal@, ..self@ };
        let ghost rest = reduce_args(
            store@,
            sides,
            var_id,
            0,
            progress(constraints@, changes@, *ids, owned_linked@),
            (fuel - 1) as nat,
        );
        let mut i: usize = 0;
        while i < n
            invariant
                fuel > 0,
                i <= n,
                n == args_of(store@, premise.base).len(),
                sides == (EquationView { premise: premise@, goal: goal@, ..self@ }),
                rest == reduce_args(
                    store@,
                    sides,
                    var_id,
                    i as nat,
                    progress(constraints@, changes@, *ids, owned_linked@),
                    (fuel - 1) as nat,
                ),
                rest == reduce_equation(
                    store@,
                    self@,
                    progress(old(constraints)@, old(changes)@, *old(ids), old(owned_linked)@),
                    fuel as nat,
                ),
                old(owned_linked)@.is_prefix_of(owned_linked@),
            decreases n - i,
        {
            if !premise.can_arg(store, i) || !goal.can_arg(store, i) {
                return Err(Fault::Malformed);
            }
            if ids.next > u64::MAX - 2 * STRIDE {
                return Err(Fault::Exhausted);
            }
            let left = Entry::vars(var_id, ids);
            let left_arg = premise.arg(store, i, left, owned_linked);
            let right = Entry::vars(var_id, ids);
            let right_arg = goal.arg(store, i, right, owned_linked);
            let next = Equation {
                premise: left_arg,
                goal: right_arg,
                premise_type: self.premise_type.clone(),
                goal_type: self.goal_type.clone(),
            };
            match next.reduce(store, fuel - 1, ids, constraints, changes, owned_linked) {
                Err(f) => {
                    return Err(f);
                },
                Ok(holds) => {
                    if !holds {
                        return Ok(false);
                    }
                },
            }
            i = i + 1;
        }
        Ok(true)
    }
}

/// Records that `c` is stuck on `m`.
fn stick(c: Constraint, m: MetaId, constraints: &mut Vec<Constraint>, changes: &mut Vec<MetaId>)
    ensures
        constraint_views(final(constraints)@) == constraint_views(old(constraints)@).push(c@),
        final(changes)@ == old(changes)@.push(m),
{
    constraints.push(c);
    changes.push(m);
    assert(constraint_views(constraints@) =~= constraint_views(old(constraints)@).push(c@));
}

/// The metavariable that is `n` parents above `m`.
fn climb(store: &Store, m: MetaId, n: u32) -> (r: Option<MetaId>)
    ensures
        r == ancestor(store@, m, n as nat),
{
    let mut at: MetaId = m;
    let mut left: u32 = n;
    while left > 0
        invariant
            ancestor(store@, m, n as nat) == ancestor(store@, at, left as nat),
        decreases left,
    {
        if !store.has_meta(at) {
            return None;
        }
        match store.meta(at).parent {
            None => {
                return None;
            },
            Some(p) => {
                at = p;
            },
        }
        left = left - 1;
    }
    Some(at)
}

impl RedexConstraint {
    /// Follows the redex for as long as the metavariables are assigned.
    /// Returns false if the whole redex is there.
    pub fn reduce(
        &self,
        store: &Store,
        constraints: &mut Vec<Constraint>,
        changes: &mut Vec<MetaId>,
    ) -> (r: Result<bool, Fault>)
        ensures
            forall|ids: Ids, owned: Seq<Rc<Linked>>|
                reduce_agrees(
                    r,
                    #[trigger] progress(final(constraints)@, final(changes)@, ids, owned),
                    reduce_redex(
                        store@,
                        self@,
                        progress(old(constraints)@, old(changes)@, ids, owned),
                    ),
                ),
    {
        let mut blame: MetaId = self.blame;
        let mut i: usize = self.position;
        let ghost goal = walk(store@, self@.instructions, i as nat, blame);
        loop
            invariant
                goal == walk(store@, self@.instructions, i as nat, blame),
                goal == walk(store@, self@.instructions, self.position as nat, self.blame),
                constraints@ == old(constraints)@,
                changes@ == old(changes)@,
            decreases self@.instructions.len() - i,
        {
            if !store.has_meta(blame) {
                return Err(Fault::Malformed);
            }
            let assn = match &store.meta(blame).assignment {
                None => {
                    stick(
                        Constraint::Redex(
                            RedexConstraint {
                                instructions: self.instructions.clone(),
                                position: i,
                                blame,
                            },
                        ),
                        blame,
                        constraints,
                        changes,
                    );
                    return Ok(true);
                },
                Some(a) => a,
            };
            if i >= self.instructions.len() {
                return Err(Fault::Malformed);
            }
            let step: Instruction = self.instructions[i];
            if assn.bind != step.bind {
                return Ok(true);
            }
            if i == self.instructions.len() - 1 {
                return Ok(false);
            }
            match climb(store, blame, step.parents) {
                None => {
                    return Err(Fault::Malformed);
                },
                Some(m) => {
                    if !store.has_meta(m) {
                        return Err(Fault::Malformed);
                    }
                    match &store.meta(m).assignment {
                        None => {
                            return Err(Fault::Malformed);
                        },
                        Some(a) => {
                            if step.child >= a.args.len() {
                                return Err(Fault::Malformed);
                            }
                            blame = a.args[step.child];
                        },
                    }
                },
            }
            i = i + 1;
        }
    }
}

impl Constraint {
    /// Propagate the constraint on the basis of new assignments.
    pub fn reduce(
        &self,
        store: &Store,
        fuel: usize,
        ids: &mut Ids,
        constraints: &mut Vec<Constraint>,
        changes: &mut Vec<MetaId>,
        owned_linked: &mut Vec<Rc<Linked>>,
    ) -> (r: Result<bool, Fault>)
        ensures
            reduce_agrees(
                r,
                progress(final(constraints)@, final(changes)@, *final(ids), final(owned_linked)@),
                reduce_constraint(
                    store@,
                    self@,
                    progress(old(constraints)@, old(changes)@, *old(ids), old(owned_linked)@),
                    fuel as nat,
                ),
            ),
            old(owned_linked)@.is_prefix_of(final(owned_linked)@),
    {
        match self {
            Constraint::Equation(q) => q.reduce(
                store,
                fuel,
                ids,
                constraints,
                changes,
                owned_linked,
            ),
            Constraint::Redex(c) => c.reduce(store, constraints, changes),
        }
    }

    /// Whether this constraint enforces an assignment on the stuck metavariable.
    pub fn rigid(&self, store: &Store, fuel: usize, ids: &mut Ids) -> (r: Result<bool, Fault>)
        ensures
            match r {
                Ok(b) => is_rigid(store@, self@, old(ids).next, fuel as nat) == Ok::<
                    (bool, u64),
                    Fault,
                >((b, final(ids).next)),
                Err(f) => is_rigid(store@, self@, old(ids).next, fuel as nat) == Err::<
                    (bool, u64),
                    Fault,
                >(f),
            },
    {
        match self {
            Constraint::Redex(_) => Ok(false),
            Constraint::Equation(q) => {
                let mut owned: Vec<Rc<Linked>> = Vec::new();
                match q.premise.whnf::<true, ()>(store, fuel, ids, &mut owned, &mut ()) {
                    Err(f) => {
                        return Err(f);
                    },
                    Ok(WHNF(_, Head::Var(_))) => {
                        return Ok(true);
                    },
                    Ok(WHNF(_, Head::Meta(_))) => {},
                }
                let mut owned: Vec<Rc<Linked>> = Vec::new();
                match q.goal.whnf::<true, ()>(store, fuel, ids, &mut owned, &mut ()) {
                    Err(f) => Err(f),
                    Ok(WHNF(_, Head::Var(_))) => Ok(true),
                    Ok(WHNF(_, Head::Meta(_))) => Ok(false),
                }
            },
        }
    }

    /// Whether the lookups of `involved` can be made.
    pub fn can_involve(&self) -> (r: bool)
        ensures
            r == constraint_fits(self@),
    {
        match self {
            Constraint::Redex(_) => true,
            Constraint::Equation(q) => q.goal_type.1.can_get_many(&q.goal_type.0.codomain_mvars)
                && q.premise_type.1.can_get_many(&q.premise_type.0.codomain_mvars),
        }
    }

    /// The metavariables that occur in the types whose equality this constraint is about.
    pub fn involved(&self) -> (r: Vec<MetaId>)
        requires
            constraint_fits(self@),
        ensures
            r@ == constraint_involved(self@),
    {
        match self {
            Constraint::Redex(_) => Vec::new(),
            Constraint::Equation(q) => {
                let mut x: Vec<MetaId> = q.goal_type.1.get_many(&q.goal_type.0.codomain_mvars);
                let mut y: Vec<MetaId> = q.premise_type.1.get_many(
                    &q.premise_type.0.codomain_mvars,
                );
                x.append(&mut y);
                x
            },
        }
    }
}

} // verus!
