//! The data of the prover: terms and metavariables, types, explicit substitutions and
//! constraints, each with its mathematical view.
//!
//! Metavariables and binds are shared and refer to one another, so they live in a
//! [`crate::memory::Store`] and are named by their position there. Everything else is
//! immutable once built and is shared by reference count.
use crate::index::{DeBruijnIndex, Index, Indexed, Polarity, Slots};
use std::rc::Rc;
use vstd::prelude::*;

verus! {

/// The position of a metavariable in the store.
pub type MetaId = usize;

/// The position of a bind in the store.
pub type BindId = usize;

/// A substitution with a list of terms, all with the same explicit substitution.
/// Note that the explicit substitution does not contain the local variables unique to each
/// element of the vector.
pub struct Subst(pub Rc<Vec<MetaId>>, pub ES);

/// An explicit substitution entry, consisting of identifiers for the params and lets
/// and optionally a substitution or typing context.
pub struct Entry {
    pub params_id: u64,
    pub lets_id: u64,
    pub subst: Option<Subst>,
    pub context: Option<Type>,
}

/// An `entry` accompanied with the associated `bindings` from the original problem.
pub struct Node {
    pub entry: Entry,
    pub bindings: Rc<Indexed<BindId>>,
}

/// A linked list of `Node`
pub struct Linked {
    pub tail: Option<Rc<Linked>>,
    pub node: Node,
}

/// An Explicit Substitution, associating a `DeBruijnIndex` with a `Var` or `Term`.
pub struct ES {
    pub linked: Option<Rc<Linked>>,
}

/// A `DeBruijnIndex`-ed type, with a `codomain` (return type)
/// and parameter/let `types`
pub struct TypeBase {
    /// Identifies this type base in the statistics.
    pub key: u64,
    pub codomain: MetaId,
    pub types: Indexed<Option<Rc<TypeBase>>>,
    /// For negative `TypeBases`, all negative indices used in the `codomain`.
    /// For positive `TypeBases`, all negative indices used in `types`.
    pub codomain_mvars: Vec<Vec<usize>>,
    pub types_mvars: Vec<Vec<usize>>,
}

/// A Type is a `DeBruijnIndex`-ed `TypeBase` with an explicit substitution `es`
/// that associates a `DeBruijnIndex` with a variable or term.
/// The bind corresponds to the variable in the original problem that has this `Type`.
pub struct Type(pub Rc<TypeBase>, pub ES, pub BindId);

/// A Term is a `DeBruijnIndex`-ed `base` with an explicit substitution `es`
/// that associates a `DeBruijnIndex` with a variable or term.
pub struct Term {
    pub base: MetaId,
    pub es: ES,
}

/// A variable from entry `entry_id` at position `index`,
/// associated with `bind` from the original problem.
#[derive(Debug, Copy, Clone)]
pub struct Var {
    pub entry_id: u64,
    pub index: Index,
    pub bind: BindId,
}

/// What reduction of a term came to: a variable, or a metavariable that it is stuck on.
#[derive(Debug, Copy, Clone)]
pub enum Head {
    Var(Var),
    Meta(MetaId),
}

/// A Term in weak head normal form, with the variable at the head, or the metavariable reduction is stuck on.
/// We allow both the variable and metavariable to be present for when we are stuck on the major argument of a recursor.
pub struct WHNF(pub Term, pub Head);

/// One step of the walk that recognises a redex: the bind to be met, and how to get from
/// there to the next metavariable.
#[derive(Debug, Copy, Clone)]
pub struct Instruction {
    pub bind: BindId,
    pub parents: u32,
    pub child: usize,
}

/// A symbol of a pattern: the bind to be met, the arguments to look at in turn, and the
/// bindings by which a replacement refers to the arguments.
pub struct Symbol {
    pub bind: BindId,
    pub children: Vec<usize>,
    pub bindings: Rc<Indexed<BindId>>,
}

/// A reduction rule. The pattern lists the symbols in the order in which they are met;
/// `None` stands for anything.
pub struct Rule {
    pub pattern: Vec<Option<Symbol>>,
    pub replacement: MetaId,
    pub attribution: Vec<String>,
}

/// The `name` and `value` of a variable in the original input problem.
pub struct Bind {
    pub name: String,
    pub rules: Vec<Rule>,
    pub redexes: Vec<Rc<Vec<Instruction>>>,
    pub polarity: Polarity,
}

/// A definitional (judgmental) equality between two `Term`s.
pub struct Equation {
    /// `premise` is a subterm of the `codomain` of the `Type` of a variable
    pub premise: Term,
    /// `goal` is a subterm of the `codomain` of the `Type` of a metavariable
    pub goal: Term,
    pub premise_type: Type,
    pub goal_type: Type,
}

/// Forbids the term from containing a redex.
pub struct RedexConstraint {
    pub instructions: Rc<Vec<Instruction>>,
    pub position: usize,
    /// The metavariable this constraint is currently walking from.
    pub blame: MetaId,
}

/// What a metavariable has to respect.
pub enum Constraint {
    Equation(Equation),
    Redex(RedexConstraint),
}

/// An assignment to a metavariable with a `DeBruijnIndex` `head` and arguments `args`.
pub struct Assignment {
    pub head: DeBruijnIndex,
    pub args: Rc<Vec<MetaId>>,
    /// `bind` (redundantly) contains the `Bind` of the `head` symbol in the context Gamma
    pub bind: BindId,
    /// `changes` allows us to return to the previous state during backtracking.
    pub changes: Vec<MetaId>,
    /// True if the codomain of `head` is not stuck on a metavariable, for heuristics.
    pub has_rigid_type: bool,
    pub var_type: Option<Type>,
}

/// The core data structure for terms and metavariables, consisting of an `assignment`
/// and additional information required for search, like the `Type` of the metavariable.
pub struct Meta {
    pub assignment: Option<Assignment>,
    /// The local variable context.
    pub gamma: ES,
    /// Constraints that are stuck on this metavariable.
    pub constraints: Vec<Constraint>,
    /// The `Type` of this metavariable.
    pub typ: Option<Type>,
    /// The bindings introduced by this term.
    pub bindings: Rc<Indexed<BindId>>,
    pub from_original_problem: bool,
    pub had_rigid_equation: bool,
    pub parent: Option<MetaId>,
}

// The views.

/// The view of a `Subst`.
#[verifier::ext_equal]
pub struct SubstView {
    pub args: Seq<MetaId>,
    pub es: Seq<NodeView>,
}

/// The view of an `Entry`.
#[verifier::ext_equal]
pub struct EntryView {
    pub params_id: u64,
    pub lets_id: u64,
    pub subst: Option<SubstView>,
    pub context: Option<TypeView>,
}

/// The view of a `Node`. An explicit substitution is a sequence of these, innermost first.
#[verifier::ext_equal]
pub struct NodeView {
    pub entry: EntryView,
    pub bindings: Slots<BindId>,
}

/// The view of a `Type`.
#[verifier::ext_equal]
pub struct TypeView {
    pub base: Rc<TypeBase>,
    pub es: Seq<NodeView>,
    pub bind: BindId,
}

/// The view of a `Term`.
#[verifier::ext_equal]
pub struct TermView {
    pub base: MetaId,
    pub es: Seq<NodeView>,
}

/// The view of a `WHNF`.
#[verifier::ext_equal]
pub struct WhnfView {
    pub term: TermView,
    pub head: Head,
}

/// The view of a `Symbol`.
#[verifier::ext_equal]
pub struct SymbolView {
    pub bind: BindId,
    pub children: Seq<usize>,
    pub bindings: Slots<BindId>,
}

/// The view of a `Rule`.
#[verifier::ext_equal]
pub struct RuleView {
    pub pattern: Seq<Option<SymbolView>>,
    pub replacement: MetaId,
    pub attribution: Seq<Seq<char>>,
}

/// The view of a `Bind`.
#[verifier::ext_equal]
pub struct BindView {
    pub name: Seq<char>,
    pub rules: Seq<RuleView>,
    pub redexes: Seq<Seq<Instruction>>,
    pub polarity: Polarity,
}

/// The view of an `Equation`.
#[verifier::ext_equal]
pub struct EquationView {
    pub premise: TermView,
    pub goal: TermView,
    pub premise_type: TypeView,
    pub goal_type: TypeView,
}

/// The view of a `RedexConstraint`.
#[verifier::ext_equal]
pub struct RedexView {
    pub instructions: Seq<Instruction>,
    pub position: usize,
    pub blame: MetaId,
}

/// The view of a `Constraint`.
#[verifier::ext_equal]
pub enum ConstraintView {
    Equation(EquationView),
    Redex(RedexView),
}

/// The view of an `Assignment`.
#[verifier::ext_equal]
pub struct AssignmentView {
    pub head: DeBruijnIndex,
    pub args: Seq<MetaId>,
    pub bind: BindId,
    pub changes: Seq<MetaId>,
    pub has_rigid_type: bool,
    pub var_type: Option<TypeView>,
}

/// The view of a `Meta`.
#[verifier::ext_equal]
pub struct MetaView {
    pub assignment: Option<AssignmentView>,
    pub gamma: Seq<NodeView>,
    pub constraints: Seq<ConstraintView>,
    pub typ: Option<TypeView>,
    pub bindings: Slots<BindId>,
    pub from_original_problem: bool,
    pub had_rigid_equation: bool,
    pub parent: Option<MetaId>,
}

/// The nodes of a linked list, from the root on.
pub open spec fn nodes(linked: Option<Rc<Linked>>) -> Seq<NodeView>
    decreases linked,
{
    match linked {
        None => Seq::empty(),
        Some(l) => seq![l.node.view()] + nodes(l.tail),
    }
}

impl ES {
    pub open spec fn view(&self) -> Seq<NodeView>
        decreases self,
    {
        nodes(self.linked)
    }
}

impl Node {
    pub open spec fn view(&self) -> NodeView
        decreases self,
    {
        NodeView { entry: self.entry.view(), bindings: self.bindings@ }
    }
}

impl Entry {
    pub open spec fn view(&self) -> EntryView
        decreases self,
    {
        EntryView {
            params_id: self.params_id,
            lets_id: self.lets_id,
            subst: match self.subst {
                None => None,
                Some(s) => Some(s.view()),
            },
            context: match self.context {
                None => None,
                Some(t) => Some(t.view()),
            },
        }
    }
}

impl Subst {
    pub open spec fn view(&self) -> SubstView
        decreases self,
    {
        SubstView { args: self.0@, es: self.1.view() }
    }
}

impl Type {
    pub open spec fn view(&self) -> TypeView
        decreases self,
    {
        TypeView { base: self.0, es: self.1.view(), bind: self.2 }
    }
}

impl Term {
    pub open spec fn view(&self) -> TermView {
        TermView { base: self.base, es: self.es@ }
    }
}

impl WHNF {
    pub open spec fn view(&self) -> WhnfView {
        WhnfView { term: self.0@, head: self.1 }
    }
}

impl Symbol {
    pub open spec fn view(&self) -> SymbolView {
        SymbolView { bind: self.bind, children: self.children@, bindings: self.bindings@ }
    }
}

/// The view of an element of a pattern.
pub open spec fn symbol_view(s: Option<Symbol>) -> Option<SymbolView> {
    match s {
        None => None,
        Some(s) => Some(s.view()),
    }
}

/// The contents of a list of strings.
pub open spec fn strings(v: Seq<String>) -> Seq<Seq<char>> {
    v.map_values(|s: String| s@)
}

impl Rule {
    pub open spec fn view(&self) -> RuleView {
        RuleView {
            pattern: self.pattern@.map_values(|s: Option<Symbol>| symbol_view(s)),
            replacement: self.replacement,
            attribution: strings(self.attribution@),
        }
    }
}

impl Bind {
    pub open spec fn view(&self) -> BindView {
        BindView {
            name: self.name@,
            rules: self.rules@.map_values(|r: Rule| r.view()),
            redexes: self.redexes@.map_values(|r: Rc<Vec<Instruction>>| r@),
            polarity: self.polarity,
        }
    }

    /// A bind without rules.
    pub fn new(name: String, polarity: Polarity) -> (r: Bind)
        ensures
            r@ == plain_bind(name@, polarity),
    {
        let r = Bind { name, rules: Vec::new(), redexes: Vec::new(), polarity };
        assert(r@.rules =~= Seq::empty());
        assert(r@.redexes =~= Seq::empty());
        r
    }
}

/// The bind of a variable with the given name that has no rules.
pub open spec fn plain_bind(name: Seq<char>, polarity: Polarity) -> BindView {
    BindView { name, rules: Seq::empty(), redexes: Seq::empty(), polarity }
}

impl Equation {
    pub open spec fn view(&self) -> EquationView {
        EquationView {
            premise: self.premise@,
            goal: self.goal@,
            premise_type: self.premise_type@,
            goal_type: self.goal_type@,
        }
    }
}

impl RedexConstraint {
    pub open spec fn view(&self) -> RedexView {
        RedexView { instructions: self.instructions@, position: self.position, blame: self.blame }
    }
}

impl Constraint {
    pub open spec fn view(&self) -> ConstraintView {
        match self {
            Constraint::Equation(e) => ConstraintView::Equation(e.view()),
            Constraint::Redex(r) => ConstraintView::Redex(r.view()),
        }
    }
}

/// The view of an optional type.
pub open spec fn type_view(t: Option<Type>) -> Option<TypeView> {
    match t {
        None => None,
        Some(t) => Some(t.view()),
    }
}

impl Assignment {
    pub open spec fn view(&self) -> AssignmentView {
        AssignmentView {
            head: self.head,
            args: self.args@,
            bind: self.bind,
            changes: self.changes@,
            has_rigid_type: self.has_rigid_type,
            var_type: type_view(self.var_type),
        }
    }
}

/// The view of an optional assignment.
pub open spec fn assignment_view(a: Option<Assignment>) -> Option<AssignmentView> {
    match a {
        None => None,
        Some(a) => Some(a.view()),
    }
}

/// The views of a list of constraints.
pub open spec fn constraint_views(v: Seq<Constraint>) -> Seq<ConstraintView> {
    v.map_values(|c: Constraint| c.view())
}

impl Meta {
    pub open spec fn view(&self) -> MetaView {
        MetaView {
            assignment: assignment_view(self.assignment),
            gamma: self.gamma@,
            constraints: constraint_views(self.constraints@),
            typ: type_view(self.typ),
            bindings: self.bindings@,
            from_original_problem: self.from_original_problem,
            had_rigid_equation: self.had_rigid_equation,
            parent: self.parent,
        }
    }
}

// Copies share what they refer to.

impl Clone for ES {
    fn clone(&self) -> (r: Self)
        ensures
            r == *self,
    {
        ES {
            linked: match &self.linked {
                None => None,
                Some(l) => Some(l.clone()),
            },
        }
    }
}

impl Clone for Subst {
    fn clone(&self) -> (r: Self)
        ensures
            r == *self,
    {
        Subst(self.0.clone(), self.1.clone())
    }
}

impl Clone for Type {
    fn clone(&self) -> (r: Self)
        ensures
            r == *self,
    {
        Type(self.0.clone(), self.1.clone(), self.2)
    }
}

impl Clone for Entry {
    fn clone(&self) -> (r: Self)
        ensures
            r == *self,
    {
        Entry {
            params_id: self.params_id,
            lets_id: self.lets_id,
            subst: match &self.subst {
                None => None,
                Some(s) => Some(s.clone()),
            },
            context: match &self.context {
                None => None,
                Some(t) => Some(t.clone()),
            },
        }
    }
}

impl Clone for Term {
    fn clone(&self) -> (r: Self)
        ensures
            r == *self,
    {
        Term { base: self.base, es: self.es.clone() }
    }
}

impl Clone for Equation {
    fn clone(&self) -> (r: Self)
        ensures
            r == *self,
    {
        Equation {
            premise: self.premise.clone(),
            goal: self.goal.clone(),
            premise_type: self.premise_type.clone(),
            goal_type: self.goal_type.clone(),
        }
    }
}

impl Clone for RedexConstraint {
    fn clone(&self) -> (r: Self)
        ensures
            r == *self,
    {
        RedexConstraint {
            instructions: self.instructions.clone(),
            position: self.position,
            blame: self.blame,
        }
    }
}

impl Clone for Constraint {
    fn clone(&self) -> (r: Self)
        ensures
            r == *self,
    {
        match self {
            Constraint::Equation(q) => Constraint::Equation(q.clone()),
            Constraint::Redex(r) => Constraint::Redex(r.clone()),
        }
    }
}

/// A copy of a list of constraints.
fn copy_constraints(v: &Vec<Constraint>) -> (r: Vec<Constraint>)
    ensures
        r@ == v@,
{
    let mut r: Vec<Constraint> = Vec::new();
    let mut i: usize = 0;
    while i < v.len()
        invariant
            i <= v@.len(),
            r@ == v@.take(i as int),
        decreases v@.len() - i,
    {
        r.push(v[i].clone());
        i = i + 1;
        assert(v@.take(i as int) =~= v@.take(i - 1).push(v@[i - 1]));
    }
    assert(v@.take(i as int) =~= v@);
    r
}

impl Clone for Assignment {
    fn clone(&self) -> (r: Self)
        ensures
            r@ == self@,
    {
        let mut changes: Vec<MetaId> = Vec::new();
        let mut i: usize = 0;
        while i < self.changes.len()
            invariant
                i <= self.changes@.len(),
                changes@ == self.changes@.take(i as int),
            decreases self.changes@.len() - i,
        {
            changes.push(self.changes[i]);
            i = i + 1;
            assert(self.changes@.take(i as int) =~= self.changes@.take(i - 1).push(
                self.changes@[i - 1],
            ));
        }
        assert(self.changes@.take(i as int) =~= self.changes@);
        Assignment {
            head: self.head,
            args: self.args.clone(),
            bind: self.bind,
            changes,
            has_rigid_type: self.has_rigid_type,
            var_type: match &self.var_type {
                None => None,
                Some(t) => Some(t.clone()),
            },
        }
    }
}

impl Clone for Meta {
    fn clone(&self) -> (r: Self)
        ensures
            r@ == self@,
    {
        Meta {
            assignment: match &self.assignment {
                None => None,
                Some(a) => Some(a.clone()),
            },
            gamma: self.gamma.clone(),
            constraints: copy_constraints(&self.constraints),
            typ: match &self.typ {
                None => None,
                Some(t) => Some(t.clone()),
            },
            bindings: self.bindings.clone(),
            from_original_problem: self.from_original_problem,
            had_rigid_equation: self.had_rigid_equation,
            parent: self.parent,
        }
    }
}

impl Var {
    /// Whether this is the same variable as `other`: two variables from the same entry at the
    /// same position are.
    pub open spec fn same(self, other: Var) -> bool {
        self.index == other.index && self.entry_id == other.entry_id
    }
}

impl PartialEq for Var {
    /// Two variables from the same entry at the same position are equal.
    fn eq(&self, other: &Self) -> (r: bool) {
        self.index == other.index && self.entry_id == other.entry_id
    }
}

impl vstd::std_specs::cmp::PartialEqSpecImpl for Var {
    open spec fn obeys_eq_spec() -> bool {
        true
    }

    open spec fn eq_spec(&self, other: &Self) -> bool {
        self.same(*other)
    }
}

impl Eq for Var {

}

} // verus!
