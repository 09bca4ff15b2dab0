//! The store of metavariables and binds.
use crate::data::{
    assignment_view, Assignment, AssignmentView, Bind, BindId, BindView, Constraint, ConstraintView,
    Instruction, Meta, MetaId, MetaView, Rule, Type, ES,
};
use std::rc::Rc;
use vstd::prelude::*;

verus! {

/// Owns every metavariable and every bind.
pub struct Store {
    pub metas: Vec<Meta>,
    pub binds: Vec<Bind>,
}

/// The contents of a `Store`.
#[verifier::ext_equal]
pub struct Heap {
    pub metas: Seq<MetaView>,
    pub binds: Seq<BindView>,
}

impl Heap {
    /// Whether there is a metavariable `m`, and it is assigned.
    pub open spec fn assigned(self, m: MetaId) -> bool {
        m < self.metas.len() && self.metas[m as int].assignment is Some
    }

    /// This heap with the metavariable `m` replaced.
    pub open spec fn with_meta(self, m: MetaId, meta: MetaView) -> Heap {
        Heap { metas: self.metas.update(m as int, meta), ..self }
    }

    /// This heap with the assignment of `m` replaced.
    pub open spec fn with_assignment(self, m: MetaId, a: Option<AssignmentView>) -> Heap {
        self.with_meta(m, MetaView { assignment: a, ..self.metas[m as int] })
    }

    /// This heap with the constraints of `m` replaced.
    pub open spec fn with_constraints(self, m: MetaId, cs: Seq<ConstraintView>) -> Heap {
        self.with_meta(m, MetaView { constraints: cs, ..self.metas[m as int] })
    }

    /// The arguments of an assignment come after the metavariable that it is made to, so that
    /// a term has no cycles.
    pub open spec fn ordered(self) -> bool {
        forall|m: int, i: int|
            #![trigger self.metas[m].assignment->0.args[i]]
            0 <= m < self.metas.len() && self.metas[m].assignment is Some && 0 <= i
                < self.metas[m].assignment->0.args.len() ==> m
                < self.metas[m].assignment->0.args[i] < self.metas.len()
    }
}

/// The views of metavariables.
pub open spec fn meta_views(metas: Seq<Meta>) -> Seq<MetaView> {
    metas.map_values(|m: Meta| m.view())
}

impl View for Store {
    type V = Heap;

    open spec fn view(&self) -> Heap {
        Heap {
            metas: meta_views(self.metas@),
            binds: self.binds@.map_values(|b: Bind| b.view()),
        }
    }
}

impl Store {
    /// An empty store.
    pub fn new() -> (r: Store)
        ensures
            r@ == (Heap { metas: Seq::empty(), binds: Seq::empty() }),
    {
        let r = Store { metas: Vec::new(), binds: Vec::new() };
        assert(r@.metas =~= Seq::empty());
        assert(r@.binds =~= Seq::empty());
        r
    }

    /// Whether there is a metavariable `m`.
    pub fn has_meta(&self, m: MetaId) -> (r: bool)
        ensures
            r == (m < self@.metas.len()),
    {
        m < self.metas.len()
    }

    /// Whether there is a bind `b`.
    pub fn has_bind(&self, b: BindId) -> (r: bool)
        ensures
            r == (b < self@.binds.len()),
    {
        b < self.binds.len()
    }

    /// The metavariable `m`.
    pub fn meta(&self, m: MetaId) -> (r: &Meta)
        requires
            m < self@.metas.len(),
        ensures
            r@ == self@.metas[m as int],
    {
        &self.metas[m]
    }

    /// The bind `b`.
    pub fn bind(&self, b: BindId) -> (r: &Bind)
        requires
            b < self@.binds.len(),
        ensures
            r@ == self@.binds[b as int],
    {
        &self.binds[b]
    }

    /// Adds a metavariable.
    pub fn add_meta(&mut self, meta: Meta) -> (r: MetaId)
        ensures
            r == old(self)@.metas.len(),
            final(self)@ == (Heap { metas: old(self)@.metas.push(meta@), ..old(self)@ }),
    {
        let id: MetaId = self.metas.len();
        self.metas.push(meta);
        assert(self@.metas =~= old(self)@.metas.push(meta@));
        id
    }

    /// Adds a bind.
    pub fn add_bind(&mut self, bind: Bind) -> (r: BindId)
        ensures
            r == old(self)@.binds.len(),
            final(self)@ == (Heap { binds: old(self)@.binds.push(bind@), ..old(self)@ }),
    {
        let id: BindId = self.binds.len();
        self.binds.push(bind);
        assert(self@.binds =~= old(self)@.binds.push(bind@));
        id
    }

    /// Gives the bind `b` its rules, and the patterns to look for where it is the head.
    pub fn set_rules(&mut self, b: BindId, rules: Vec<Rule>, redexes: Vec<Rc<Vec<Instruction>>>)
        requires
            b < old(self)@.binds.len(),
        ensures
            final(self)@ == (Heap {
                binds: old(self)@.binds.update(
                    b as int,
                    BindView {
                        rules: rules@.map_values(|r: Rule| r.view()),
                        redexes: redexes@.map_values(|r: Rc<Vec<Instruction>>| r@),
                        ..old(self)@.binds[b as int]
                    },
                ),
                ..old(self)@
            }),
    {
        let ghost h = self@;
        self.binds[b].rules = rules;
        self.binds[b].redexes = redexes;
        assert(self@.binds =~= h.binds.update(b as int, self@.binds[b as int]));
    }

    /// Drops the metavariables from `len` on.
    pub fn truncate(&mut self, len: usize)
        requires
            len <= old(self)@.metas.len(),
        ensures
            final(self)@ == (Heap { metas: old(self)@.metas.take(len as int), ..old(self)@ }),
    {
        self.metas.truncate(len);
        assert(self@.metas =~= old(self)@.metas.take(len as int));
    }

    /// Drops the binds from `len` on.
    pub fn truncate_binds(&mut self, len: usize)
        requires
            len <= old(self)@.binds.len(),
        ensures
            final(self)@ == (Heap { binds: old(self)@.binds.take(len as int), ..old(self)@ }),
    {
        self.binds.truncate(len);
        assert(self@.binds =~= old(self)@.binds.take(len as int));
    }

    /// A copy of the metavariables.
    pub fn copy_metas(&self) -> (r: Vec<Meta>)
        ensures
            meta_views(r@) == self@.metas,
    {
        let mut r: Vec<Meta> = Vec::new();
        let mut i: usize = 0;
        while i < self.metas.len()
            invariant
                i <= self.metas@.len(),
                r@.len() == i,
                forall|j: int| 0 <= j < i ==> (#[trigger] r@[j])@ == self.metas@[j]@,
            decreases self.metas@.len() - i,
        {
            r.push(self.metas[i].clone());
            i = i + 1;
        }
        assert(meta_views(r@) =~= self@.metas);
        r
    }

    /// Replaces all metavariables, returning the previous ones.
    pub fn swap_metas(&mut self, metas: Vec<Meta>) -> (r: Vec<Meta>)
        ensures
            final(self)@ == (Heap { metas: meta_views(metas@), ..old(self)@ }),
            meta_views(r@) == old(self)@.metas,
    {
        let mut metas = metas;
        std::mem::swap(&mut self.metas, &mut metas);
        metas
    }

    /// Replaces the assignment of `m`, returning the previous one.
    pub fn swap_assignment(&mut self, m: MetaId, a: Option<Assignment>) -> (r: Option<Assignment>)
        requires
            m < old(self)@.metas.len(),
        ensures
            final(self)@ == old(self)@.with_assignment(m, assignment_view(a)),
            assignment_view(r) == old(self)@.metas[m as int].assignment,
    {
        let mut a = a;
        std::mem::swap(&mut self.metas[m].assignment, &mut a);
        assert(self@.metas =~= old(self)@.with_assignment(m, self@.metas[m as int].assignment).metas);
        a
    }

    /// Adds a constraint to `m`.
    pub fn push_constraint(&mut self, m: MetaId, c: Constraint)
        requires
            m < old(self)@.metas.len(),
        ensures
            final(self)@ == old(self)@.with_constraints(
                m,
                old(self)@.metas[m as int].constraints.push(c@),
            ),
    {
        self.metas[m].constraints.push(c);
        assert(self@.metas[m as int].constraints =~= old(self)@.metas[m as int].constraints.push(
            c@,
        ));
        assert(self@.metas =~= old(self)@.with_constraints(m, self@.metas[m as int].constraints).metas);
    }

    /// Removes the last constraint of `m`, where there is one.
    pub fn pop_constraint(&mut self, m: MetaId)
        requires
            m < old(self)@.metas.len(),
        ensures
            final(self)@ == old(self)@.with_constraints(
                m,
                without_last(old(self)@.metas[m as int].constraints),
            ),
    {
        self.metas[m].constraints.pop();
        assert(self@.metas[m as int].constraints =~= without_last(
            old(self)@.metas[m as int].constraints,
        ));
        assert(self@.metas =~= old(self)@.with_constraints(m, self@.metas[m as int].constraints).metas);
    }

    /// Sets the type and the context of `m`.
    pub fn set_typ(&mut self, m: MetaId, gamma: ES, typ: Type)
        requires
            m < old(self)@.metas.len(),
        ensures
            final(self)@ == old(self)@.with_meta(
                m,
                MetaView {
                    gamma: gamma@,
                    typ: Some(typ@),
                    ..old(self)@.metas[m as int]
                },
            ),
    {
        self.metas[m].gamma = gamma;
        self.metas[m].typ = Some(typ);
        assert(self@.metas =~= old(self)@.with_meta(m, self@.metas[m as int]).metas);
    }

    /// Records whether `m` had a rigid equation when it was chosen.
    pub fn set_had_rigid_equation(&mut self, m: MetaId, flag: bool)
        requires
            m < old(self)@.metas.len(),
        ensures
            final(self)@ == old(self)@.with_meta(
                m,
                MetaView { had_rigid_equation: flag, ..old(self)@.metas[m as int] },
            ),
    {
        self.metas[m].had_rigid_equation = flag;
        assert(self@.metas =~= old(self)@.with_meta(m, self@.metas[m as int]).metas);
    }
}

/// A sequence without its last element, where it has one.
pub open spec fn without_last<T>(s: Seq<T>) -> Seq<T> {
    if s.len() == 0 {
        s
    } else {
        s.drop_last()
    }
}

} // verus!
