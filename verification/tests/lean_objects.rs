use canonical::exchange::{
    has_nul, to_ir_rule, to_ir_spine, to_ir_term, to_ir_type, to_ir_var, to_string,
};
use canonical::ids::Fault;
use canonical::ir::{IRLet, IRRule, IRSpine, IRTerm, IRVar};
use canonical::lean::{
    array_size, lean_align, lean_alloc_ctor, lean_box, lean_io_result_mk_error,
    lean_io_result_mk_ok, lean_is_scalar, lean_unbox, to_canonical_result, LeanObject, LeanOption,
    LeanTerm, LeanType,
};
use canonical::reply::{
    rule_to_string, spine_to_string, term_to_string, to_lean_array, to_lean_let, to_lean_rule,
    to_lean_spine, to_lean_string, to_lean_term, to_lean_var, typ_to_string,
};
use canonical::search::DFSResult;
use canonical::solutions::{same_rule, same_term, Lock};

fn spine(head: &str, args: Vec<IRTerm>) -> IRSpine {
    IRSpine { head: head.to_string(), args, premise_rules: Vec::new() }
}

fn term(params: &[&str], lets: Vec<IRLet>, body: IRSpine) -> IRTerm {
    IRTerm {
        params: params.iter().map(|p| IRVar { name: p.to_string() }).collect(),
        lets,
        spine: body,
        goal_rules: Vec::new(),
    }
}

fn atom(head: &str) -> IRTerm {
    term(&[], Vec::new(), spine(head, Vec::new()))
}

fn rule() -> IRRule {
    IRRule {
        lhs: spine("f", vec![atom("x")]),
        rhs: spine("x", Vec::new()),
        attribution: vec!["f_x".to_string()],
        is_redex: true,
    }
}

fn sample() -> IRTerm {
    term(
        &["x", "y"],
        vec![IRLet { var: IRVar { name: "f".to_string() }, rules: vec![rule()] }],
        spine("f", vec![term(&["z"], Vec::new(), spine("z", Vec::new())), atom("y")]),
    )
}

/// The type `(A : *) → (a : A) → A`, as Lean hands it over.
fn identity() -> LeanType {
    let header = LeanObject { m_rc: 1, m_cs_sz: 0, m_other: 3, m_tag: 0 };
    let a = LeanType {
        m_header: header,
        codomain: to_lean_term(&atom("A")).unwrap(),
        params: to_lean_array(0),
        params_items: Vec::new(),
        lets: to_lean_array(0),
        lets_items: Vec::new(),
    };
    LeanType {
        m_header: header,
        codomain: to_lean_term(&term(&["A", "a"], Vec::new(), spine("A", Vec::new()))).unwrap(),
        params: to_lean_array(2),
        params_items: vec![
            LeanOption::Scalar(lean_box(0)),
            LeanOption::Object { m_header: header, val: a },
        ],
        lets: to_lean_array(0),
        lets_items: Vec::new(),
    }
}

#[test]
fn scalars_are_odd_words() {
    assert_eq!(lean_box(0), 1);
    assert_eq!(lean_box(21), 43);
    assert_eq!(lean_unbox(43), 21);
    assert!(lean_is_scalar(lean_box(21)));
    assert!(!lean_is_scalar(42));
    assert_eq!(lean_unbox(lean_box(usize::MAX / 2)), usize::MAX / 2);
    assert_eq!(lean_box(usize::MAX), usize::MAX);
    assert_ne!(lean_unbox(lean_box(usize::MAX)), usize::MAX);
}

#[test]
fn sizes_are_rounded_up() {
    assert_eq!(lean_align(0, 8), 0);
    assert_eq!(lean_align(8, 8), 8);
    assert_eq!(lean_align(9, 8), 16);
    assert_eq!(lean_align(33, 8), 40);
    assert_eq!(lean_align(10, 3), 12);
    assert_eq!(lean_align(usize::MAX, 1), usize::MAX);
    assert_eq!(lean_align(usize::MAX - 7, 8), usize::MAX - 7);
    assert_eq!(lean_align(usize::MAX - 1, usize::MAX), usize::MAX);
}

#[test]
fn layouts_of_constructors() {
    let l = lean_alloc_ctor(1, 3, 1, 8).unwrap();
    assert_eq!(l.m_header, LeanObject { m_rc: 1, m_cs_sz: 0, m_other: 3, m_tag: 1 });
    assert_eq!((l.size, l.aligned), (33, 40));
    assert!(lean_alloc_ctor(244, 255, 1023, 8).is_ok());
    assert!(matches!(lean_alloc_ctor(245, 0, 0, 8), Err(Fault::Malformed)));
    assert!(matches!(lean_alloc_ctor(0, 256, 0, 8), Err(Fault::Malformed)));
    assert!(matches!(lean_alloc_ctor(0, 0, 1024, 8), Err(Fault::Malformed)));
}

#[test]
fn layouts_of_arrays() {
    assert_eq!(array_size(0, 8), Some(24));
    assert_eq!(array_size(5, 8), Some(64));
    assert_eq!(array_size(usize::MAX, 8), None);
    assert_eq!(array_size(1, usize::MAX), None);
    let a = to_lean_array(5);
    assert_eq!((a.m_size, a.m_capacity), (5, 5));
    assert_eq!(a.m_header, LeanObject { m_rc: 1, m_cs_sz: 0, m_other: 0, m_tag: 246 });
}

#[test]
fn strings_end_at_their_first_nul() {
    let mut o = to_lean_string(&"héllo".to_string()).unwrap();
    assert_eq!(to_string(&o).unwrap(), "héllo");
    assert_eq!(o.m_header.m_tag, 249);
    o.m_data = "ab\0cd".to_string();
    assert_eq!(to_string(&o).unwrap(), "ab");
    o.m_header.m_tag = 246;
    assert_eq!(to_string(&o), Err(Fault::Malformed));
    assert!(has_nul(&"a\0".to_string()) && !has_nul(&String::new()));
    assert!(matches!(to_lean_string(&"a\0".to_string()), Err(Fault::Malformed)));
}

#[test]
fn variables_return() {
    let v = IRVar { name: "x".to_string() };
    assert_eq!(to_ir_var(&to_lean_var(&v).unwrap()), Ok(v));
}

#[test]
fn terms_return() {
    let o = to_lean_term(&sample()).unwrap();
    assert_eq!(o.m_header, LeanObject { m_rc: 1, m_cs_sz: 0, m_other: 4, m_tag: 0 });
    assert_eq!(o.spine.m_header.m_other, 3);
    assert_eq!(o.lets_items[0].m_header.m_other, 2);
    assert!(same_term(&to_ir_term(&o).unwrap(), &sample()));
}

#[test]
fn rules_and_lets_return() {
    let o = to_lean_rule(&rule()).unwrap();
    assert_eq!(o.m_header.m_other, 3);
    assert!(same_rule(&to_ir_rule(&o).unwrap(), &rule()));
    let l = IRLet { var: IRVar { name: "f".to_string() }, rules: vec![rule()] };
    let back = canonical::exchange::to_ir_let(&to_lean_let(&l).unwrap()).unwrap();
    assert!(canonical::solutions::same_let(&back, &l));
}

#[test]
fn justifications_are_handed_over_but_not_read() {
    let mut t = atom("x");
    t.goal_rules = vec!["g".to_string()];
    t.spine.premise_rules = vec!["p".to_string(), "q".to_string()];
    let o = to_lean_term(&t).unwrap();
    assert_eq!(o.goal_rules_items.len(), 1);
    assert_eq!(o.spine.premise_rules.m_size, 2);
    assert!(!same_term(&to_ir_term(&o).unwrap(), &t));
    assert!(same_term(&to_ir_term(&o).unwrap(), &atom("x")));
}

#[test]
fn a_nul_anywhere_cannot_be_handed_over() {
    let mut t = sample();
    t.lets[0].rules[0].attribution[0] = "a\0".to_string();
    assert!(matches!(to_lean_term(&t), Err(Fault::Malformed)));
    let mut t = sample();
    t.goal_rules.push("\0".to_string());
    assert!(matches!(to_lean_term(&t), Err(Fault::Malformed)));
    assert!(matches!(to_lean_spine(&spine("f\0", Vec::new())), Err(Fault::Malformed)));
}

#[test]
fn wrong_tags_cannot_be_read() {
    let broken = |change: &dyn Fn(&mut LeanTerm)| {
        let mut o = to_lean_term(&sample()).unwrap();
        change(&mut o);
        to_ir_term(&o)
    };
    assert!(broken(&|_| {}).is_ok());
    assert!(broken(&|o| o.params.m_header.m_tag = 0).is_err());
    assert!(broken(&|o| o.lets.m_size = 7).is_err());
    assert!(broken(&|o| o.spine.head.m_header.m_tag = 0).is_err());
    assert!(broken(&|o| o.params_items[1].m_header.m_tag = 0).is_err());
    assert!(broken(&|o| o.lets_items[0].rules_items[0].attribution.m_header.m_tag = 0).is_err());
    assert!(broken(&|o| o.spine.args_items[0].spine.head.m_header.m_tag = 0).is_err());
    assert!(broken(&|o| o.goal_rules.m_header.m_tag = 0).is_ok());
    let mut o = to_lean_spine(&spine("f", vec![atom("x")])).unwrap();
    o.args.m_header.m_tag = 249;
    assert!(matches!(to_ir_spine(&o), Err(Fault::Malformed)));
}

#[test]
fn types_are_read() {
    let t = to_ir_type(&identity()).unwrap();
    assert!(t.params[0].is_none());
    assert_eq!(t.params[1].as_ref().unwrap().to_string(), "A");
    assert_eq!(t.fmt(" "), "(A : *) → (a : A) → A");
    let mut wrong = identity();
    wrong.params_items[0] = LeanOption::Scalar(lean_box(1));
    assert!(matches!(to_ir_type(&wrong), Err(Fault::Malformed)));
}

#[test]
fn texts_for_lean() {
    let o = to_lean_term(&sample()).unwrap();
    assert_eq!(
        term_to_string(&o).unwrap().m_data,
        "λ x y, f := [f x ↦ x] ↦ f (λ z ↦ z) y"
    );
    assert_eq!(spine_to_string(&o.spine).unwrap().m_data, "f (λ z ↦ z) y");
    assert_eq!(rule_to_string(&to_lean_rule(&rule()).unwrap()).unwrap().m_data, "f x ↦ x");
    assert_eq!(typ_to_string(&identity()).unwrap().m_data, "(A : *) →\n(a : A) →\nA");
    let mut wrong = identity();
    wrong.params.m_size = 0;
    assert!(matches!(typ_to_string(&wrong), Err(Fault::Malformed)));
}

#[test]
fn outcomes() {
    let result = DFSResult {
        unknown_count: 3,
        solution_count: 1,
        steps: 40,
        branching: 7,
        attempts: 50,
    };
    let r = to_canonical_result(to_lean_array(0), Vec::new(), result, 12);
    assert_eq!(r.attempted_resolutions, 50);
    assert_eq!(r.successful_resolutions, 43);
    assert_eq!((r.steps, r.last_level_steps), (40, 12));
    assert_eq!((r.m_header.m_tag, r.m_header.m_other), (0, 1));
    let ok = lean_io_result_mk_ok(7u8);
    assert_eq!((ok.m_header.m_tag, ok.first, ok.second), (0, 7, 1));
    let error = lean_io_result_mk_error(7u8);
    assert_eq!((error.m_header.m_tag, error.first, error.second), (1, 7, 1));
}

#[test]
fn only_one_holds_the_lock() {
    let mut lock = Lock::new();
    assert!(lock.lock());
    assert!(!lock.lock());
    lock.unlock();
    assert!(lock.lock());
}
