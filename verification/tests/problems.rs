use canonical::backtrack::Prover;
use canonical::data::{BindId, Constraint, Equation, Head, Term, ES};
use canonical::elaborate::ElabError;
use canonical::ids::{Fault, Ids};
use canonical::ir::{IRLet, IRRule, IRSpine, IRTerm, IRType, IRVar};
use canonical::memory::Store;
use canonical::prover::{Move, Pending};
use canonical::replay::Replay;
use canonical::index::{DeBruijn, DeBruijnIndex, Index};
use canonical::solutions::{read_solution, same_term, Solutions};
use canonical::stack::{StackComponent, StackProver};
use canonical::stats::MetaStats;
use rustc_hash::FxHashMap;

const FUEL: usize = 200;

fn var(name: &str) -> IRVar {
    IRVar { name: name.to_string() }
}

fn spine(head: &str, args: Vec<IRTerm>) -> IRSpine {
    IRSpine { head: head.to_string(), args, premise_rules: Vec::new() }
}

fn lambda(params: &[&str], body: IRSpine) -> IRTerm {
    IRTerm {
        params: params.iter().map(|p| var(p)).collect(),
        lets: Vec::new(),
        spine: body,
        goal_rules: Vec::new(),
    }
}

fn atom(head: &str) -> IRTerm {
    lambda(&[], spine(head, Vec::new()))
}

/// The type whose parameters are given by name and type.
fn pi(params: Vec<(&str, Option<IRType>)>, codomain: IRSpine) -> IRType {
    let mut names = Vec::new();
    let mut types = Vec::new();
    for (name, typ) in params {
        names.push(var(name));
        types.push(typ);
    }
    IRType {
        params: types,
        lets: Vec::new(),
        codomain: IRTerm {
            params: names,
            lets: Vec::new(),
            spine: codomain,
            goal_rules: Vec::new(),
        },
    }
}

fn base(head: &str) -> IRType {
    pi(Vec::new(), spine(head, Vec::new()))
}

/// `(A : *) → (a : A) → A`
fn identity() -> IRType {
    pi(vec![("A", None), ("a", Some(base("A")))], spine("A", Vec::new()))
}

/// `(A : *) → (B : *) → (f : A → B) → (a : A) → B`
fn modus_ponens() -> IRType {
    let f = pi(vec![("x", Some(base("A")))], spine("B", Vec::new()));
    pi(
        vec![("A", None), ("B", None), ("f", Some(f)), ("a", Some(base("A")))],
        spine("B", Vec::new()),
    )
}

/// `(A : *) → (B : *) → (f : A → B) → (a : A) → (c : A) → B`
fn two_arguments() -> IRType {
    let f = pi(vec![("x", Some(base("A")))], spine("B", Vec::new()));
    let (a, c) = (base("A"), base("A"));
    pi(
        vec![("A", None), ("B", None), ("f", Some(f)), ("a", Some(a)), ("c", Some(c))],
        spine("B", Vec::new()),
    )
}

/// `(A : *) → (B : *) → (a : A) → B`
fn absurd() -> IRType {
    pi(
        vec![("A", None), ("B", None), ("a", Some(base("A")))],
        spine("B", Vec::new()),
    )
}

/// `(A : *) → (a : A) → (b : A) → A`
fn choice() -> IRType {
    pi(
        vec![("A", None), ("a", Some(base("A"))), ("b", Some(base("A")))],
        spine("A", Vec::new()),
    )
}

/// `(N : *) → (P : *) → (x : N) → (y : N) → (q : P x) → (p : P y) → P x`
fn indexed() -> IRType {
    pi(
        vec![
            ("N", None),
            ("P", None),
            ("x", Some(base("N"))),
            ("y", Some(base("N"))),
            ("q", Some(pi(Vec::new(), spine("P", vec![atom("x")])))),
            ("p", Some(pi(Vec::new(), spine("P", vec![atom("y")])))),
        ],
        spine("P", vec![atom("x")]),
    )
}

/// `(N : *) → (P : *) → (x : N) → (y : N) → (q : (n : N) → P n) → P x`
fn instance() -> IRType {
    let q = pi(vec![("n", Some(base("N")))], spine("P", vec![atom("n")]));
    pi(
        vec![
            ("N", None),
            ("P", None),
            ("x", Some(base("N"))),
            ("y", Some(base("N"))),
            ("q", Some(q)),
        ],
        spine("P", vec![atom("x")]),
    )
}

struct Search {
    store: Store,
    ids: Ids,
    stats: FxHashMap<u64, MetaStats>,
    prover: Prover,
    steps: usize,
}

impl Search {
    fn new(typ: &IRType) -> Search {
        let mut store = Store::new();
        let mut ids = Ids::new(0);
        let stats = FxHashMap::default();
        let mut sites: Vec<(BindId, ES)> = Vec::new();
        let prover = typ
            .start("proof".to_string(), &mut store, &stats, FUEL, &mut ids, &mut sites)
            .unwrap();
        let mut search = Search { store, ids, stats, prover, steps: 0 };
        search.prover.restart(&mut search.store, FUEL, &mut search.ids).unwrap();
        search
    }

    fn begin(&mut self, f: usize) -> Pending {
        let candidate = self.prover.pop_candidate(f).unwrap();
        self.prover
            .begin(&mut self.store, f, candidate, &self.stats, FUEL, &mut self.ids)
            .unwrap()
    }

    fn finish(&mut self, pending: &Pending, pruned: bool) -> Move {
        let difficulty = pending.groups.iter().map(|g| vec![1; g.infos.len()]).collect();
        self.prover
            .finish(&mut self.store, pending, &difficulty, pruned, FUEL, &mut self.ids)
            .unwrap()
    }

    fn assign_root(&mut self) {
        let margins = vec![0; self.prover.frames.len()];
        let step = self.prover.advance(&mut self.store, &margins, 10);
        assert_eq!(step, Move::Assign(0));
        let pending = self.begin(0);
        assert_eq!(self.finish(&pending, false), Move::Deeper);
    }

    /// Goes on until the next solution, or until there is nothing more to try.
    fn next(&mut self, max_size: usize) -> Option<IRTerm> {
        loop {
            self.steps += 1;
            let margins = vec![0; self.prover.frames.len()];
            let mut step = self.prover.advance(&mut self.store, &margins, max_size);
            if let Move::Assign(f) = step {
                let pending = self.begin(f);
                step = self.finish(&pending, false);
            }
            match step {
                Move::Solved => {
                    let term: Term = self.prover.get_term(&self.store);
                    let found = read_solution(&mut self.store, &term, FUEL, &mut self.ids).unwrap();
                    return Some(found);
                }
                Move::Exhausted => return None,
                _ => {}
            }
        }
    }
}

fn first(typ: &IRType, max_size: usize) -> Option<String> {
    Search::new(typ).next(max_size).map(|t| t.to_string())
}

#[test]
fn finds_the_identity() {
    assert_eq!(first(&identity(), 10), Some("λ A a ↦ a".to_string()));
}

#[test]
fn applies_a_hypothesis() {
    assert_eq!(first(&modus_ponens(), 10), Some("λ A B f a ↦ f a".to_string()));
}

#[test]
fn finds_nothing_for_an_absurd_type() {
    assert_eq!(first(&absurd(), 10), None);
}

#[test]
fn gives_up_where_the_term_gets_too_large() {
    assert_eq!(first(&modus_ponens(), 1), None);
    assert_eq!(first(&modus_ponens(), 2), Some("λ A B f a ↦ f a".to_string()));
}

#[test]
fn tells_types_apart_by_their_indices() {
    assert_eq!(first(&indexed(), 10), Some("λ N P x y q p ↦ q".to_string()));
}

#[test]
fn tries_the_last_variable_first() {
    assert_eq!(first(&choice(), 10), Some("λ A a b ↦ b".to_string()));
}

#[test]
fn going_back_from_a_solution_leads_to_the_next() {
    let mut search = Search::new(&choice());
    assert_eq!(search.next(10).unwrap().to_string(), "λ A a b ↦ b");
    search.prover.backtrack(&mut search.store, 0);
    assert!(search.store.meta(search.prover.meta).assignment.is_none());
    assert_eq!(search.next(10).unwrap().to_string(), "λ A a b ↦ a");
    search.prover.backtrack(&mut search.store, 0);
    assert!(search.next(10).is_none());
}

#[test]
fn cancelling_leaves_the_root_unassigned() {
    let mut search = Search::new(&modus_ponens());
    let margins = vec![0; search.prover.frames.len()];
    let Move::Assign(f) = search.prover.advance(&mut search.store, &margins, 10) else {
        panic!("the root can be assigned");
    };
    let pending = search.begin(f);
    assert_eq!(search.finish(&pending, false), Move::Deeper);
    assert_eq!(search.prover.size, 1);
    search.prover.cancel(&mut search.store);
    assert_eq!(search.prover.size, 0);
    assert_eq!(search.prover.frames, vec![0]);
    assert!(search.store.meta(search.prover.meta).assignment.is_none());
}

#[test]
fn pruning_the_root_ends_the_search() {
    let mut search = Search::new(&identity());
    let margins = vec![0; search.prover.frames.len()];
    let Move::Assign(f) = search.prover.advance(&mut search.store, &margins, 10) else {
        panic!("the root can be assigned");
    };
    let pending = search.begin(f);
    assert_eq!(search.finish(&pending, true), Move::Exhausted);
}

#[test]
fn restarting_tries_everything_again() {
    let mut search = Search::new(&identity());
    assert_eq!(search.next(0), None);
    search.prover.restart(&mut search.store, FUEL, &mut search.ids).unwrap();
    assert_eq!(search.next(10).unwrap().to_string(), "λ A a ↦ a");
}

#[test]
fn restarting_after_a_solution_starts_over() {
    let mut search = Search::new(&modus_ponens());
    assert_eq!(search.next(10).unwrap().to_string(), "λ A B f a ↦ f a");
    assert!(search.prover.frames.is_empty());
    search.prover.restart(&mut search.store, FUEL, &mut search.ids).unwrap();
    assert_eq!((search.prover.size, search.prover.frames.clone()), (0, vec![0]));
    assert!(search.store.meta(search.prover.meta).assignment.is_none());
    assert_eq!(search.next(10).unwrap().to_string(), "λ A B f a ↦ f a");
}

#[test]
fn what_was_imposed_holds_in_the_solution() {
    let mut search = Search::new(&instance());
    assert_eq!(search.next(10).unwrap().to_string(), "λ N P x y q ↦ q x");
    let mut imposed = 0;
    let mut tested = 0;
    for m in search.store.metas.iter() {
        let (Some(a), Some(goal_type)) = (&m.assignment, &m.typ) else { continue };
        let Some(premise_type) = &a.var_type else { continue };
        let types = Equation {
            premise: premise_type.codomain(),
            goal: goal_type.codomain(),
            premise_type: premise_type.clone(),
            goal_type: goal_type.clone(),
        };
        let mut all = vec![Constraint::Equation(types)];
        all.extend(m.constraints.iter().cloned());
        imposed += m.constraints.len();
        tested += 1;
        for c in &all {
            let (mut left, mut changes, mut linked) = (Vec::new(), Vec::new(), Vec::new());
            let r = c.reduce(
                &search.store,
                FUEL,
                &mut search.ids,
                &mut left,
                &mut changes,
                &mut linked,
            );
            assert_eq!(r, Ok(true));
            assert!(left.is_empty() && changes.is_empty());
        }
    }
    assert_eq!((tested, imposed), (2, 1));
}

/// A copy of the search.
fn copy_of(search: &mut Search) -> Prover {
    let mut copy = search
        .prover
        .replicate(&mut search.store, &search.stats, FUEL, &mut search.ids)
        .unwrap();
    let mut pending: Vec<(usize, usize)> = vec![(0, 0)];
    loop {
        let step = copy
            .replay(
                &search.prover,
                &mut search.store,
                &mut pending,
                &search.stats,
                FUEL,
                &mut search.ids,
            )
            .unwrap();
        match step {
            Replay::Done => return copy,
            Replay::Leaf => {}
            Replay::Assign(o, left) => {
                let difficulty = left.groups.iter().map(|g| vec![1; g.infos.len()]).collect();
                copy.finish_copy(
                    &search.prover,
                    &mut search.store,
                    &left,
                    o,
                    &difficulty,
                    &mut pending,
                    FUEL,
                    &mut search.ids,
                )
                .unwrap();
            }
        }
    }
}

#[test]
fn a_copy_of_a_search_has_the_same_term() {
    let mut search = Search::new(&modus_ponens());
    let found = search.next(10).unwrap();
    let copy = copy_of(&mut search);
    assert_eq!(copy.size, 2);
    assert_eq!(copy.size, search.prover.size);
    assert!(copy.frames.is_empty());
    let children = |p: &Prover| p.arena.iter().map(|f| f.children.clone()).collect::<Vec<_>>();
    assert_eq!(children(&copy), children(&search.prover));
    assert!(copy.meta != search.prover.meta);
    assert_eq!(copy.problem_bind, search.prover.problem_bind);
    let term = copy.get_term(&search.store);
    let again = read_solution(&mut search.store, &term, FUEL, &mut search.ids).unwrap();
    assert!(same_term(&found, &again));
    assert_eq!(again.to_string(), "λ A B f a ↦ f a");
}

#[test]
fn a_copy_of_an_unfinished_search_lists_its_leaves() {
    let mut search = Search::new(&two_arguments());
    search.assign_root();
    search.prover.arena[1].stats.dfs_completed = true;
    let copy = copy_of(&mut search);
    assert_eq!((copy.size, copy.frames.clone()), (1, vec![1]));
    assert_eq!(copy.arena[1].domain.len(), 2);
    assert!(copy.arena[1].stats.dfs_completed);
    assert!(!copy.arena[0].stats.dfs_completed);
    search.prover.cancel(&mut search.store);
    let copy = copy_of(&mut search);
    assert_eq!((copy.size, copy.frames.clone()), (0, vec![0]));
}

#[test]
fn what_is_taken_back_is_recorded_above() {
    let mut search = Search::new(&two_arguments());
    search.assign_root();
    let before = search.prover.live_frames();
    assert_eq!(before, vec![true, true]);
    assert!(search.prover.dropped_frames(&before).is_empty());
    search.prover.arena[1].stats.dfs_completed = true;
    search.prover.backtrack(&mut search.store, 0);
    assert_eq!(search.prover.live_frames(), vec![true, false]);
    assert_eq!(search.prover.dropped_frames(&before), vec![(1, true)]);
    assert!(search.prover.dropped_frames(&vec![true, false]).is_empty());
    let root = &search.prover.arena[0].stats;
    assert!(root.unknown && root.dfs_completed && !root.assignment_completed);
    assert_eq!(search.prover.size, 0);
}

#[test]
fn nothing_is_unknown_where_everything_was_tried() {
    let mut search = Search::new(&two_arguments());
    search.assign_root();
    assert!(search.prover.pop_candidate(1).is_some());
    assert!(search.prover.pop_candidate(1).is_some());
    assert!(search.prover.pop_candidate(1).is_none());
    search.prover.backtrack(&mut search.store, 0);
    assert_eq!(search.prover.dropped_frames(&vec![true]), vec![(1, false)]);
    assert!(!search.prover.arena[0].stats.unknown);
}

#[test]
fn an_undeclared_variable_is_named() {
    let typ = pi(vec![("A", None)], spine("B", Vec::new()));
    let mut store = Store::new();
    let mut ids = Ids::new(0);
    let mut sites = Vec::new();
    let stats: FxHashMap<u64, MetaStats> = FxHashMap::default();
    let r = typ.start("proof".to_string(), &mut store, &stats, FUEL, &mut ids, &mut sites);
    match r {
        Err(e) => {
            assert_eq!(e.message(), "Undeclared variable: B");
            assert!(matches!(e, ElabError::Undeclared(name) if name == "B"));
        }
        _ => panic!("the variable is not declared"),
    }
}

#[test]
fn running_out_of_identifiers_is_a_fault() {
    let mut store = Store::new();
    let mut ids = Ids::new(0);
    ids.next = u64::MAX;
    let mut sites = Vec::new();
    let stats: FxHashMap<u64, MetaStats> = FxHashMap::default();
    let r = identity().start("proof".to_string(), &mut store, &stats, FUEL, &mut ids, &mut sites);
    assert!(matches!(r, Err(ElabError::Fault(Fault::Exhausted))));
}

#[test]
fn nesting_too_deeply_is_a_fault() {
    let mut search = Search::new(&identity());
    search.next(10).unwrap();
    let term = search.prover.get_term(&search.store);
    let r = read_solution(&mut search.store, &term, 0, &mut search.ids);
    assert!(matches!(r, Err(Fault::Overflow)));
}

#[test]
fn reading_a_metavariable_that_is_not_there_is_a_fault() {
    let mut search = Search::new(&identity());
    let term = Term { base: 1_000_000, es: ES::new() };
    let r = read_solution(&mut search.store, &term, FUEL, &mut search.ids);
    assert!(matches!(r, Err(Fault::Malformed)));
}

#[test]
fn solutions_are_kept_once_and_up_to_their_number() {
    let mut kept = Solutions::new(2);
    assert!(!kept.offer(atom("a")));
    assert!(!kept.offer(atom("a")));
    assert_eq!(kept.terms.len(), 1);
    assert!(kept.offer(atom("b")));
    assert!(kept.offer(atom("c")));
    let texts: Vec<String> = kept.terms.iter().map(|t| t.to_string()).collect();
    assert_eq!(texts, vec!["a".to_string(), "b".to_string()]);
    assert!(Solutions::new(0).offer(atom("a")));
}

#[test]
fn terms_differ_in_any_of_their_parts() {
    let rule = |redex: bool| IRRule {
        lhs: spine("f", Vec::new()),
        rhs: spine("x", Vec::new()),
        attribution: vec!["f_def".to_string()],
        is_redex: redex,
    };
    let with_let = |redex: bool| IRTerm {
        params: vec![var("x")],
        lets: vec![IRLet { var: var("f"), rules: vec![rule(redex)] }],
        spine: spine("f", vec![atom("x")]),
        goal_rules: Vec::new(),
    };
    assert!(same_term(&with_let(true), &with_let(true)));
    assert!(!same_term(&with_let(true), &with_let(false)));
    assert!(!same_term(&with_let(true), &lambda(&["x"], spine("f", vec![atom("x")]))));
    assert!(!same_term(&atom("x"), &atom("y")));
    let mut justified = atom("x");
    justified.goal_rules = vec!["r".to_string()];
    assert!(!same_term(&atom("x"), &justified));
}

#[test]
fn elaborated_terms_reduce_to_their_variable() {
    let mut store = Store::new();
    let mut ids = Ids::new(0);
    let mut sites = Vec::new();
    let es = ES::new();
    let (tb, _) = identity()
        .to_type(&mut store, &es, canonical::index::Polarity::Goal, &mut ids, &mut sites)
        .unwrap();
    let term = Term { base: tb.codomain, es: store.meta(tb.codomain).gamma.clone() };
    let w = term
        .whnf::<true, ()>(&store, FUEL, &mut ids, &mut Vec::new(), &mut ())
        .unwrap();
    let Head::Var(head) = w.1 else {
        panic!("there is no metavariable");
    };
    assert_eq!(store.bind(head.bind).name, "A");
    assert!(sites.is_empty());
}

#[test]
fn a_stack_of_frames_tries_its_candidates() {
    let mut search = Search::new(&choice());
    let root = search.prover.meta;
    let mut stack = StackProver {
        meta: root,
        frames: Vec::new(),
        components: vec![StackComponent::new(&vec![root], 0, 0)],
    };
    assert_eq!(stack.enter(&mut search.store, FUEL, &mut search.ids), Ok(true));
    assert_eq!((stack.frames.len(), stack.components.len()), (1, 0));
    assert_eq!(stack.frames[0].domain.len(), 2);
    let first = stack.step(&mut search.store, 1).unwrap();
    assert_eq!(first.assignment.head, DeBruijnIndex(DeBruijn(0), Index::Param(1)));
    let second = stack.step(&mut search.store, 1).unwrap();
    assert_eq!(second.assignment.head, DeBruijnIndex(DeBruijn(0), Index::Param(2)));
    assert!(stack.step(&mut search.store, 1).is_none());
    assert_eq!(stack.enter(&mut search.store, FUEL, &mut search.ids), Ok(false));
    stack.components.push(StackComponent::new(&vec![root], 0, 0));
    assert_eq!(stack.enter(&mut search.store, 0, &mut search.ids), Err(Fault::Overflow));
}

#[test]
fn a_solution_has_no_metavariable_left() {
    let mut search = Search::new(&modus_ponens());
    search.next(10).unwrap();
    let mut open = Vec::new();
    canonical::independence::collect_unassigned(&search.store, search.prover.meta, &mut open);
    assert!(open.is_empty());
}

#[test]
fn testing_an_assignment_makes_nothing_but_its_arguments() {
    let mut search = Search::new(&modus_ponens());
    let root = search.prover.meta;
    let before = search.store.metas.len();
    let items = search.store.meta(root).gamma.iter();
    for (db, linked, var) in &items {
        let len = search.store.metas.len();
        let name = search.store.bind(var.bind).name.clone();
        let tested = canonical::search::test(
            &mut search.store,
            *db,
            linked,
            root,
            FUEL,
            &mut search.ids,
        )
        .unwrap();
        assert!(search.store.meta(root).assignment.is_none());
        match (name.as_str(), tested) {
            ("f", Some(Some(c))) => {
                assert_eq!(*c.assignment.args, vec![len]);
                assert_eq!(search.store.metas.len(), len + 1);
                assert_eq!(search.store.meta(len).parent, Some(root));
            }
            ("a", Some(None)) => assert_eq!(search.store.metas.len(), len),
            ("A" | "B", None) => assert_eq!(search.store.metas.len(), len),
            _ => panic!("{name} cannot come to this"),
        }
    }
    assert_eq!(search.store.metas.len(), before + 1);
}
