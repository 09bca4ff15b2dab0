use canonical::data::{
    Assignment, BindId, Constraint, Entry, Equation, Head, Instruction, Meta, MetaId,
    RedexConstraint, Rule, Symbol, Term, Type, TypeBase, ES,
};
use canonical::guard::{check_room, guard_overflow, RESERVE};
use canonical::ids::{next_u64, Fault, Ids};
use canonical::index::{DeBruijn, DeBruijnIndex, Index, Indexed, Polarity};
use canonical::ir::{IRLet, IRRule, IRSpine, IRTerm, IRType, IRVar};
use canonical::memory::Store;
use canonical::names::disambiguate_bind;
use canonical::solutions::same_term;
use canonical::stack::{StackComponent, StackFrame, StackProver};
use canonical::text::append_decimal;
use canonical::typed::bucket;
use std::rc::Rc;

const FUEL: usize = 100;

fn var(name: &str) -> IRVar {
    IRVar { name: name.to_string() }
}

fn spine(head: &str, args: &[&str]) -> IRSpine {
    IRSpine {
        head: head.to_string(),
        args: args
            .iter()
            .map(|a| IRTerm {
                params: Vec::new(),
                lets: Vec::new(),
                spine: spine(a, &[]),
                goal_rules: Vec::new(),
            })
            .collect(),
        premise_rules: Vec::new(),
    }
}

/// A type with the given parameters and let declarations, of which nothing is known.
fn problem(params: &[&str], lets: &[&str], codomain: IRSpine) -> IRType {
    IRType {
        params: params.iter().map(|_| None).collect(),
        lets: lets.iter().map(|_| None).collect(),
        codomain: IRTerm {
            params: params.iter().map(|p| var(p)).collect(),
            lets: lets.iter().map(|l| IRLet { var: var(l), rules: Vec::new() }).collect(),
            spine: codomain,
            goal_rules: Vec::new(),
        },
    }
}

fn elaborate(typ: &IRType) -> (Store, Ids, TypeBase, Vec<(BindId, ES)>) {
    let mut store = Store::new();
    let mut ids = Ids::new(3);
    let mut sites = Vec::new();
    let (tb, _) =
        typ.to_type(&mut store, &ES::new(), Polarity::Goal, &mut ids, &mut sites).unwrap();
    (store, ids, tb, sites)
}

fn codomain(store: &Store, tb: &TypeBase) -> Term {
    Term { base: tb.codomain, es: store.meta(tb.codomain).gamma.clone() }
}

fn bind_named(store: &Store, name: &str) -> BindId {
    store.binds.iter().position(|b| b.name == name).unwrap()
}

fn plain(head: DeBruijnIndex, bind: BindId) -> Assignment {
    Assignment {
        head,
        args: Rc::new(Vec::new()),
        bind,
        changes: Vec::new(),
        has_rigid_type: true,
        var_type: None,
    }
}

fn meta(assignment: Option<Assignment>, parent: Option<MetaId>) -> Meta {
    Meta {
        assignment,
        gamma: ES::new(),
        constraints: Vec::new(),
        typ: None,
        bindings: none(),
        from_original_problem: false,
        had_rigid_equation: false,
        parent,
    }
}

fn none() -> Rc<Indexed<BindId>> {
    Rc::new(Indexed { params: Vec::new(), lets: Vec::new() })
}

#[test]
fn identifiers_of_threads_differ() {
    let mut a = Ids::new(0);
    let mut b = Ids::new(1);
    let drawn: Vec<u64> = vec![next_u64(&mut a), next_u64(&mut b), next_u64(&mut a)];
    assert_eq!(drawn, vec![0, 1, 128]);
    assert!(a.ready());
    a.next = u64::MAX - 127;
    assert!(!a.ready());
}

#[test]
fn polarities_are_opposite() {
    assert_eq!(Polarity::Goal.opposite(), Polarity::Premise);
    assert_eq!(Polarity::Goal.opposite().opposite(), Polarity::Goal);
}

#[test]
fn parameters_come_first_and_the_last_of_them_leads() {
    let list = Indexed { params: vec!['a', 'b'], lets: vec!['c', 'd'] };
    assert_eq!(
        Indexed::iter(&list),
        vec![Index::Param(1), Index::Param(0), Index::Let(1), Index::Let(0)]
    );
    assert_eq!(*list.index(Index::Let(0)), 'c');
    assert!(list.contains(Index::Param(1)) && !list.contains(Index::Param(2)));
    assert!(!list.is_empty());
}

#[test]
fn room_on_the_stack() {
    assert_eq!(check_room(Some(RESERVE)), Ok(()));
    assert_eq!(check_room(Some(RESERVE - 1)), Err(Fault::Overflow));
    assert_eq!(check_room(None), Err(Fault::Overflow));
    assert_eq!(guard_overflow(), Ok(()));
}

#[test]
fn decimals() {
    let mut s = "n".to_string();
    append_decimal(&mut s, 0);
    append_decimal(&mut s, 907);
    append_decimal(&mut s, u64::MAX);
    assert_eq!(s, "n090718446744073709551615");
}

/// Gives `f` the rule `f zero ↦ zero`, where the right side is the argument of the left side.
fn with_rule(store: &mut Store) {
    let f = bind_named(store, "f");
    let zero = bind_named(store, "zero");
    let replacement =
        store.add_meta(meta(Some(plain(DeBruijnIndex(DeBruijn(0), Index::Param(0)), zero)), None));
    let argument = Rc::new(Indexed { params: vec![zero], lets: Vec::new() });
    let rule = Rule {
        pattern: vec![
            Some(Symbol { bind: f, children: vec![0], bindings: argument }),
            Some(Symbol { bind: zero, children: Vec::new(), bindings: none() }),
        ],
        replacement,
        attribution: vec!["f_zero".to_string()],
    };
    store.set_rules(f, vec![rule], Vec::new());
}

#[test]
fn rules_are_applied_and_noted() {
    let (mut store, mut ids, tb, sites) = elaborate(&problem(&["zero"], &["f"], spine("f", &["zero"])));
    assert_eq!(sites.len(), 1);
    assert_eq!(sites[0].0, bind_named(&store, "f"));
    with_rule(&mut store);
    let term = codomain(&store, &tb);
    let mut noted: Vec<String> = Vec::new();
    let w = term
        .whnf::<true, Vec<String>>(&store, FUEL, &mut ids, &mut Vec::new(), &mut noted)
        .unwrap();
    let Head::Var(v) = w.1 else { panic!("there is no metavariable") };
    assert_eq!(store.bind(v.bind).name, "zero");
    assert_eq!(noted, vec!["f_zero".to_string()]);
    let w = term
        .whnf::<false, ()>(&store, FUEL, &mut ids, &mut Vec::new(), &mut ())
        .unwrap();
    let Head::Var(v) = w.1 else { panic!("there is no metavariable") };
    assert_eq!(store.bind(v.bind).name, "f");
}

#[test]
fn rules_that_do_not_match_are_not_applied() {
    let (mut store, mut ids, tb, _) =
        elaborate(&problem(&["zero", "one"], &["f"], spine("f", &["one"])));
    with_rule(&mut store);
    let w = codomain(&store, &tb)
        .whnf::<true, ()>(&store, FUEL, &mut ids, &mut Vec::new(), &mut ())
        .unwrap();
    let Head::Var(v) = w.1 else { panic!("there is no metavariable") };
    assert_eq!(store.bind(v.bind).name, "f");
}

#[test]
fn rules_wait_for_the_metavariable_they_look_at() {
    let (mut store, mut ids, tb, _) = elaborate(&problem(&["zero"], &["f"], spine("f", &["zero"])));
    with_rule(&mut store);
    let arg = store.meta(tb.codomain).assignment.as_ref().unwrap().args[0];
    store.swap_assignment(arg, None);
    let w = codomain(&store, &tb)
        .whnf::<true, ()>(&store, FUEL, &mut ids, &mut Vec::new(), &mut ())
        .unwrap();
    assert!(matches!(w.1, Head::Meta(m) if m == arg));
}

#[test]
fn faults_of_reduction() {
    let (store, mut ids, tb, _) = elaborate(&problem(&["zero"], &[], spine("zero", &[])));
    let mut term = codomain(&store, &tb);
    let r = term.whnf::<true, ()>(&store, 0, &mut ids, &mut Vec::new(), &mut ());
    assert!(matches!(r, Err(Fault::Overflow)));
    term.es = ES::new();
    let r = term.whnf::<true, ()>(&store, FUEL, &mut ids, &mut Vec::new(), &mut ());
    assert!(matches!(r, Err(Fault::Malformed)));
}

fn compare(left: usize, right: usize, open: bool) -> (Result<bool, Fault>, usize, Vec<MetaId>) {
    let (mut store, mut ids, tb, _) =
        elaborate(&problem(&["P", "a", "b"], &[], spine("P", &["a", "b"])));
    let args = store.meta(tb.codomain).assignment.as_ref().unwrap().args.clone();
    if open {
        store.swap_assignment(args[right], None);
    }
    let term = codomain(&store, &tb);
    let mut owned = Vec::new();
    let id = next_u64(&mut ids);
    let entry = Entry::vars(id, &mut ids);
    let premise = term.arg(&store, left, entry.clone(), &mut owned);
    let goal = term.arg(&store, right, entry, &mut owned);
    let typ = Type(Rc::new(tb), term.es.clone(), 0);
    let q = Equation { premise, goal, premise_type: typ.clone(), goal_type: typ };
    let mut constraints = Vec::new();
    let mut changes = Vec::new();
    let r = q.reduce(&store, FUEL, &mut ids, &mut constraints, &mut changes, &mut owned);
    let expected = if open { vec![args[right]] } else { Vec::new() };
    assert_eq!(changes, expected);
    for (c, m) in constraints.iter().zip(&changes) {
        let (mut again, mut on) = (Vec::new(), Vec::new());
        let r = c.reduce(&store, FUEL, &mut ids, &mut again, &mut on, &mut Vec::new());
        assert_eq!((r, again.len(), on), (Ok(true), 1, vec![*m]));
    }
    (r, constraints.len(), changes)
}

#[test]
fn equations_between_variables() {
    assert_eq!(compare(0, 0, false).0, Ok(true));
    assert_eq!(compare(0, 1, false).0, Ok(false));
}

#[test]
fn equations_get_stuck_on_metavariables() {
    let (r, stuck, changes) = compare(0, 1, true);
    assert_eq!(r, Ok(true));
    assert_eq!((stuck, changes.len()), (1, 1));
}

#[test]
fn redexes_are_recognised() {
    let mut store = Store::new();
    let outer = plain(DeBruijnIndex(DeBruijn(0), Index::Param(0)), 10);
    store.add_meta(meta(Some(Assignment { args: Rc::new(vec![1]), ..outer }), None));
    store.add_meta(meta(None, Some(0)));
    let path = Rc::new(vec![
        Instruction { bind: 10, parents: 0, child: 0 },
        Instruction { bind: 20, parents: 0, child: 0 },
    ]);
    let redex = RedexConstraint { instructions: path.clone(), position: 0, blame: 0 };
    let mut constraints = Vec::new();
    let mut changes = Vec::new();
    assert_eq!(redex.reduce(&store, &mut constraints, &mut changes), Ok(true));
    assert_eq!(changes, vec![1]);
    let Constraint::Redex(rest) = &constraints[0] else { panic!("the rest of the redex") };
    assert_eq!((rest.position, rest.blame), (1, 1));
    store.swap_assignment(1, Some(plain(DeBruijnIndex(DeBruijn(0), Index::Param(0)), 20)));
    assert_eq!(rest.reduce(&store, &mut Vec::new(), &mut Vec::new()), Ok(false));
    store.swap_assignment(1, Some(plain(DeBruijnIndex(DeBruijn(0), Index::Param(0)), 30)));
    assert_eq!(rest.reduce(&store, &mut Vec::new(), &mut Vec::new()), Ok(true));
    let lost = RedexConstraint { instructions: path, position: 0, blame: 9 };
    assert_eq!(lost.reduce(&store, &mut Vec::new(), &mut Vec::new()), Err(Fault::Malformed));
}

#[test]
fn unassigning_undoes_an_assignment() {
    let mut store = Store::new();
    store.add_meta(meta(None, None));
    store.add_meta(meta(None, None));
    let redex = RedexConstraint {
        instructions: Rc::new(vec![Instruction { bind: 1, parents: 0, child: 0 }]),
        position: 0,
        blame: 1,
    };
    let assn = Assignment {
        changes: vec![1],
        ..plain(DeBruijnIndex(DeBruijn(0), Index::Param(0)), 5)
    };
    Meta::assign(&mut store, 0, assn, vec![Constraint::Redex(redex)]);
    assert!(store.meta(0).assignment.is_some());
    assert_eq!(store.meta(1).constraints.len(), 1);
    let back = Meta::unassign(&mut store, 0).unwrap();
    assert_eq!(back.bind, 5);
    assert!(store.meta(0).assignment.is_none());
    assert!(store.meta(1).constraints.is_empty());
}

#[test]
fn names_are_made_different() {
    let (store, _, tb, _) =
        elaborate(&problem(&["x", "x1", "y"], &[], spine("y", &[])));
    let es = store.meta(tb.codomain).gamma.clone();
    let name = |preferred: &str| {
        disambiguate_bind(&store, &preferred.to_string(), &es, Polarity::Goal).name
    };
    assert_eq!(name("z"), "z");
    assert_eq!(name("y"), "y1");
    assert_eq!(name("x"), "x2");
}

#[test]
fn positions_are_sorted_by_level() {
    let at = |d: u32, i: Index| DeBruijnIndex(DeBruijn(d), i);
    let rows = bucket(
        &vec![
            at(1, Index::Param(4)),
            at(0, Index::Param(2)),
            at(1, Index::Let(3)),
            at(7, Index::Let(0)),
            at(1, Index::Param(0)),
        ],
        3,
    );
    assert_eq!(rows, vec![vec![2], vec![4, 0], Vec::new()]);
}

#[test]
fn contexts_list_their_variables() {
    let (store, _, tb, _) = elaborate(&problem(&["a", "b"], &["f"], spine("a", &[])));
    let es = store.meta(tb.codomain).gamma.clone();
    assert_eq!(es.length(), 1);
    let names: Vec<String> =
        es.iter().iter().map(|x| store.bind(x.2.bind).name.clone()).collect();
    assert_eq!(names, vec!["b".to_string(), "a".to_string(), "f".to_string()]);
    let found = es.index_of(&store, &"b".to_string()).unwrap();
    assert_eq!(found.0, DeBruijnIndex(DeBruijn(0), Index::Param(1)));
    assert!(es.index_of(&store, &"c".to_string()).is_none());
}

#[test]
fn texts_of_terms_and_types() {
    let rule = IRRule {
        lhs: spine("f", &["x"]),
        rhs: spine("x", &[]),
        attribution: Vec::new(),
        is_redex: false,
    };
    let mut t = problem(&["x"], &["f"], spine("f", &["x"]));
    t.codomain.lets[0].rules.push(rule);
    assert_eq!(t.fmt(" "), "(x : *) → (f : * := [f x ↦ x]) → f x");
    assert_eq!(t.codomain.to_string(), "λ x, f := [f x ↦ x] ↦ f x");
    t.params.push(None);
    assert_eq!(t.to_string(), "(x : *) →\n(f : * := [f x ↦ x]) →\nf x");
}

#[test]
fn a_stack_goes_back_to_what_is_left_to_try() {
    let mut store = Store::new();
    for _ in 0..4 {
        store.add_meta(meta(None, None));
    }
    let component = StackComponent::new(&vec![0, 1, 2], 1, 0);
    assert_eq!((component.beginning.clone(), component.next, component.end.clone()), (vec![0], 1, vec![2]));
    let mut prover = StackProver {
        meta: 0,
        frames: vec![StackFrame { domain: Vec::new(), component }],
        components: Vec::new(),
    };
    assert_eq!(prover.unassigned(0, &vec![3]), vec![0, 3, 2]);
    store.swap_assignment(1, Some(plain(DeBruijnIndex(DeBruijn(0), Index::Param(0)), 0)));
    assert!(prover.step(&mut store, 1).is_none());
    prover.backtrack(&mut store, 0);
    assert!(prover.frames.is_empty());
    assert!(store.meta(1).assignment.is_none());
}

fn lambda(params: &[&str], body: IRSpine) -> IRTerm {
    IRTerm {
        params: params.iter().map(|p| var(p)).collect(),
        lets: Vec::new(),
        spine: body,
        goal_rules: Vec::new(),
    }
}

/// Writes the term in a context with the variables `f` and `a`, and reads it back.
fn read_back(t: &IRTerm) -> IRTerm {
    let (mut store, mut ids, tb, _) = elaborate(&problem(&["f", "a"], &[], spine("a", &[])));
    let es = store.meta(tb.codomain).gamma.clone();
    let (m, _) =
        t.to_term(&mut store, &es, Polarity::Goal, &mut ids, &mut Vec::new()).unwrap();
    let term = Term { base: m, es: store.meta(m).gamma.clone() };
    let bindings = store.meta(m).bindings.clone();
    IRTerm::read::<false>(&mut store, &term, &bindings, false, FUEL, &mut ids).unwrap()
}

#[test]
fn written_terms_are_read_back() {
    let inner = lambda(&["y"], spine("f", &["x", "y", "a"]));
    let t = lambda(
        &["x"],
        IRSpine {
            head: "f".to_string(),
            args: vec![inner, lambda(&[], spine("x", &[]))],
            premise_rules: Vec::new(),
        },
    );
    assert!(same_term(&read_back(&t), &t));
    assert_eq!(read_back(&t).to_string(), "λ x ↦ f (λ y ↦ f x y a) x");
}

#[test]
fn a_hidden_name_is_replaced() {
    let t = IRSpine {
        head: "f".to_string(),
        args: vec![lambda(&["a"], spine("a", &[]))],
        premise_rules: Vec::new(),
    };
    assert_eq!(read_back(&lambda(&[], t)).to_string(), "f (λ a1 ↦ a1)");
}

#[test]
fn reducing_twice_or_with_more_room_changes_nothing() {
    let (mut store, mut ids, tb, _) = elaborate(&problem(&["zero"], &["f"], spine("f", &["zero"])));
    with_rule(&mut store);
    let term = codomain(&store, &tb);
    let reduce = |t: &Term, fuel: usize, ids: &mut Ids| {
        t.whnf::<true, ()>(&store, fuel, ids, &mut Vec::new(), &mut ()).unwrap()
    };
    let once = reduce(&term, FUEL, &mut ids);
    let twice = reduce(&once.0, FUEL, &mut ids);
    let deeper = reduce(&term, 2 * FUEL, &mut ids);
    for w in [&once, &twice, &deeper] {
        let Head::Var(v) = w.1 else { panic!("there is no metavariable") };
        assert_eq!(store.bind(v.bind).name, "zero");
    }
    assert_eq!(once.0.base, twice.0.base);
    assert_eq!(once.0.base, deeper.0.base);
}

#[test]
fn an_open_term_is_in_normal_form() {
    let (mut store, mut ids, tb, _) = elaborate(&problem(&["zero"], &["f"], spine("f", &["zero"])));
    store.swap_assignment(tb.codomain, None);
    let term = codomain(&store, &tb);
    let before = ids.next;
    let mut linked = Vec::new();
    let w = term.whnf::<true, ()>(&store, 1, &mut ids, &mut linked, &mut ()).unwrap();
    assert!(matches!(w.1, Head::Meta(m) if m == tb.codomain));
    assert_eq!(w.0.base, term.base);
    assert!(linked.is_empty() && ids.next == before);
}

#[test]
fn arguments_come_after_what_they_are_arguments_of() {
    let (store, _, _, _) =
        elaborate(&problem(&["P", "a", "b"], &[], spine("P", &["a", "b"])));
    for (m, meta) in store.metas.iter().enumerate() {
        if let Some(a) = &meta.assignment {
            assert!(a.args.iter().all(|x| m < *x && *x < store.metas.len()));
        }
    }
}
