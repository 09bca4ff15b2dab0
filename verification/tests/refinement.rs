use canonical::data::BindId;
use canonical::data::ES;
use canonical::ids::{Fault, Ids};
use canonical::index::{DeBruijn, DeBruijnIndex, Index};
use canonical::independence::collect_unassigned;
use canonical::ir::{IRSpine, IRTerm, IRType, IRVar};
use canonical::memory::Store;
use canonical::refine::{find_autofill, find_with_id, names_of, term_html};
use canonical::session::AppState;
use canonical::stats::MetaStats;
use rustc_hash::FxHashMap;

const FUEL: usize = 200;

fn typ(names: &[&str], types: Vec<Option<IRType>>, head: &str) -> IRType {
    IRType {
        params: types,
        lets: Vec::new(),
        codomain: IRTerm {
            params: names.iter().map(|n| IRVar { name: n.to_string() }).collect(),
            lets: Vec::new(),
            spine: IRSpine { head: head.to_string(), args: Vec::new(), premise_rules: Vec::new() },
            goal_rules: Vec::new(),
        },
    }
}

fn base(head: &str) -> IRType {
    typ(&[], Vec::new(), head)
}

/// `(A : *) → (B : *) → (f : A → B) → (a : A) → B`
fn modus_ponens() -> IRType {
    let f = typ(&["x"], vec![Some(base("A"))], "B");
    typ(&["A", "B", "f", "a"], vec![None, None, Some(f), Some(base("A"))], "B")
}

fn session(problem: &IRType) -> (AppState, Ids) {
    let mut store = Store::new();
    let mut ids = Ids::new(0);
    let stats: FxHashMap<u64, MetaStats> = FxHashMap::default();
    let mut sites: Vec<(BindId, ES)> = Vec::new();
    let prover = problem
        .start("proof".to_string(), &mut store, &stats, FUEL, &mut ids, &mut sites)
        .unwrap();
    (AppState::new(store, prover.meta), ids)
}

fn param(i: usize) -> DeBruijnIndex {
    DeBruijnIndex(DeBruijn(0), Index::Param(i))
}

fn html(state: &mut AppState, ids: &mut Ids) -> String {
    term_html(&mut state.store, state.current, FUEL, ids).unwrap()
}

#[test]
fn a_new_session_shows_one_metavariable() {
    let (mut state, mut ids) = session(&modus_ponens());
    let root = state.current;
    assert!(state.autofill && !state.constraints);
    assert!(state.undo.is_empty() && state.redo.is_empty());
    let page = html(&mut state, &mut ids);
    assert!(page.contains(&format!("id='{root}'")));
    assert!(page.contains(&format!("onclick='assign({root}, 0, 2, false)'>f</button>")));
    assert!(!page.contains("assign({root}, 0, 3, false)"));
    assert!(page.contains("<div class='type'>B</div>"));
    assert!(!page.contains("No Options"));
    assert_eq!(names_of(&state.store, &vec![root]), Some(vec!["proof".to_string()]));
    assert_eq!(names_of(&state.store, &vec![root, 1_000_000]), None);
}

#[test]
fn an_assignment_and_the_forced_move_after_it() {
    let (mut state, mut ids) = session(&modus_ponens());
    let root = state.current;
    state.assign(root, param(2), FUEL, &mut ids).unwrap();
    assert_eq!(html(&mut state, &mut ids), "f a");
    assert_eq!(state.undo.len(), 1);
    let mut open = Vec::new();
    collect_unassigned(&state.store, root, &mut open);
    assert!(open.is_empty());
}

#[test]
fn without_autofill_the_forced_move_is_left() {
    let (mut state, mut ids) = session(&modus_ponens());
    let root = state.current;
    state.set(&"autofill".to_string(), false);
    state.assign(root, param(2), FUEL, &mut ids).unwrap();
    let mut open = Vec::new();
    collect_unassigned(&state.store, root, &mut open);
    assert_eq!(open.len(), 1);
    assert_eq!(find_with_id(&state.store, root, open[0]), Some(open[0]));
    assert_eq!(find_with_id(&state.store, root, root), None);
    assert_eq!(
        find_autofill(&mut state.store, root, FUEL, &mut ids).unwrap(),
        Some((open[0], param(3)))
    );
    assert_eq!(names_of(&state.store, &open), Some(vec!["x".to_string()]));
    state.assign(open[0], param(3), FUEL, &mut ids).unwrap();
    assert_eq!(html(&mut state, &mut ids), "f a");
    assert_eq!(state.undo.len(), 2);
}

#[test]
fn undo_and_redo_lead_back_and_forth() {
    let (mut state, mut ids) = session(&modus_ponens());
    let root = state.current;
    let start = html(&mut state, &mut ids);
    state.undo();
    state.redo();
    assert_eq!(html(&mut state, &mut ids), start);
    state.set(&"autofill".to_string(), false);
    state.assign(root, param(2), FUEL, &mut ids).unwrap();
    let middle = html(&mut state, &mut ids);
    assert_ne!(middle, start);
    state.undo();
    assert_eq!(html(&mut state, &mut ids), start);
    assert_eq!((state.undo.len(), state.redo.len()), (0, 1));
    state.redo();
    assert_eq!(html(&mut state, &mut ids), middle);
    assert_eq!((state.undo.len(), state.redo.len()), (1, 0));
    state.undo();
    state.assign(root, param(2), FUEL, &mut ids).unwrap();
    assert!(state.redo.is_empty());
}

#[test]
fn an_assignment_that_is_not_possible_changes_no_term() {
    let (mut state, mut ids) = session(&modus_ponens());
    let root = state.current;
    let start = html(&mut state, &mut ids);
    state.assign(root, param(3), FUEL, &mut ids).unwrap();
    assert_eq!(html(&mut state, &mut ids), start);
    assert_eq!(state.undo.len(), 1);
}

#[test]
fn faults_leave_the_session_as_it_was() {
    let (mut state, mut ids) = session(&modus_ponens());
    let root = state.current;
    let start = html(&mut state, &mut ids);
    assert_eq!(state.assign(1_000_000, param(2), FUEL, &mut ids), Err(Fault::Malformed));
    let far = DeBruijnIndex(DeBruijn(7), Index::Param(0));
    assert_eq!(state.assign(root, far, FUEL, &mut ids), Err(Fault::Malformed));
    assert_eq!(state.assign(root, param(2), 1, &mut ids), Err(Fault::Overflow));
    assert!(state.undo.is_empty());
    assert_eq!(html(&mut state, &mut ids), start);
}

#[test]
fn resetting_forgets_everything() {
    let (mut state, mut ids) = session(&modus_ponens());
    let root = state.current;
    let start = html(&mut state, &mut ids);
    state.assign(root, param(2), FUEL, &mut ids).unwrap();
    state.undo();
    state.redo();
    state.reset();
    assert!(state.undo.is_empty() && state.redo.is_empty());
    assert_eq!(html(&mut state, &mut ids), start);
}

#[test]
fn options_are_set_by_name() {
    let (mut state, _) = session(&modus_ponens());
    state.set(&"constraints".to_string(), true);
    assert!(state.autofill && state.constraints);
    state.set(&"autofill".to_string(), false);
    assert!(!state.autofill && state.constraints);
    state.set(&"other".to_string(), true);
    assert!(!state.autofill && state.constraints);
}

#[test]
fn a_metavariable_without_options_says_so() {
    let absurd = typ(&["A", "B", "a"], vec![None, None, Some(base("A"))], "B");
    let (mut state, mut ids) = session(&absurd);
    assert!(html(&mut state, &mut ids).contains("<div class='fail'>No Options</div>"));
    let root = state.current;
    assert_eq!(find_autofill(&mut state.store, root, FUEL, &mut ids).unwrap(), None);
}
