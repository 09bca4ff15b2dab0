use canonical::backtrack::Prover;
use canonical::data::{BindId, ES};
use canonical::ids::{Fault, Ids};
use canonical::independence::{
    can_involve, can_select, group, involved_inverse, involved_with, partition, select_next, split,
    NextInfo,
};
use canonical::ir::{IRSpine, IRTerm, IRType, IRVar};
use canonical::memory::Store;
use canonical::prover::{select_frame, Move, Pending};
use canonical::search::{DFSResult, AssignmentInfo};
use canonical::stats::{
    assignment_op, can_merge, meta_op, over_limit, AssignmentStats, MetaInfo, MetaStats,
    SearchInfo,
};
use rustc_hash::FxHashMap;
use std::collections::HashMap;

const FUEL: usize = 200;

fn spine(head: &str, args: &[&str]) -> IRSpine {
    IRSpine {
        head: head.to_string(),
        args: args
            .iter()
            .map(|a| IRTerm {
                params: Vec::new(),
                lets: Vec::new(),
                spine: spine(a, &[]),
                goal_rules: Vec::new(),
            })
            .collect(),
        premise_rules: Vec::new(),
    }
}

fn typ(params: Vec<(&str, Option<IRType>)>, codomain: IRSpine) -> IRType {
    let names = params.iter().map(|p| IRVar { name: p.0.to_string() }).collect();
    IRType {
        params: params.into_iter().map(|p| p.1).collect(),
        lets: Vec::new(),
        codomain: IRTerm {
            params: names,
            lets: Vec::new(),
            spine: codomain,
            goal_rules: Vec::new(),
        },
    }
}

fn base(head: &str, args: &[&str]) -> Option<IRType> {
    Some(typ(Vec::new(), spine(head, args)))
}

/// `(A B P : *) → (mk : A → B → P) → (a : A) → (b : B) → P`
fn pair() -> IRType {
    let mk = typ(vec![("x", base("A", &[])), ("y", base("B", &[]))], spine("P", &[]));
    typ(
        vec![
            ("A", None),
            ("B", None),
            ("P", None),
            ("mk", Some(mk)),
            ("a", base("A", &[])),
            ("b", base("B", &[])),
        ],
        spine("P", &[]),
    )
}

/// `(N P R : *) → (mk : (n : N) → (p : P n) → R) → (x y : N) → (q : P x) → R`
fn dependent_pair() -> IRType {
    let mk = typ(vec![("n", base("N", &[])), ("p", base("P", &["n"]))], spine("R", &[]));
    typ(
        vec![
            ("N", None),
            ("P", None),
            ("R", None),
            ("mk", Some(mk)),
            ("x", base("N", &[])),
            ("y", base("N", &[])),
            ("q", base("P", &["x"])),
        ],
        spine("R", &[]),
    )
}

fn opened(problem: &IRType) -> (Store, Ids, Prover, Pending) {
    let mut store = Store::new();
    let mut ids = Ids::new(0);
    let stats = FxHashMap::default();
    let mut sites: Vec<(BindId, ES)> = Vec::new();
    let mut prover = problem
        .start("proof".to_string(), &mut store, &stats, FUEL, &mut ids, &mut sites)
        .unwrap();
    prover.restart(&mut store, FUEL, &mut ids).unwrap();
    assert_eq!(prover.advance(&mut store, &vec![0], 10), Move::Assign(0));
    let candidate = prover.pop_candidate(0).unwrap();
    let pending = prover.begin(&mut store, 0, candidate, &stats, FUEL, &mut ids).unwrap();
    (store, ids, prover, pending)
}

fn finish(problem: &IRType) -> String {
    let (mut store, mut ids, mut prover, mut pending) = opened(problem);
    let stats = FxHashMap::default();
    loop {
        let difficulty = pending.groups.iter().map(|g| vec![1; g.infos.len()]).collect();
        prover.finish(&mut store, &pending, &difficulty, false, FUEL, &mut ids).unwrap();
        loop {
            let margins = vec![0; prover.frames.len()];
            match prover.advance(&mut store, &margins, 10) {
                Move::Assign(f) => {
                    let c = prover.pop_candidate(f).unwrap();
                    pending = prover.begin(&mut store, f, c, &stats, FUEL, &mut ids).unwrap();
                    break;
                }
                Move::Solved => {
                    let t = prover.get_term(&store);
                    return canonical::solutions::read_solution(&mut store, &t, FUEL, &mut ids)
                        .unwrap()
                        .to_string();
                }
                Move::Exhausted => panic!("there is a solution"),
                _ => {}
            }
        }
    }
}

#[test]
fn unrelated_arguments_are_apart() {
    let (_, _, _, pending) = opened(&pair());
    assert_eq!(pending.groups.len(), 2);
    assert!(pending.groups.iter().all(|g| g.members.len() == 1 && g.members[0].eligible));
    assert_eq!(finish(&pair()), "λ A B P mk a b ↦ mk a b");
}

#[test]
fn an_argument_and_one_whose_type_mentions_it_are_together() {
    let (store, _, prover, pending) = opened(&dependent_pair());
    assert_eq!(pending.groups.len(), 1);
    let args = store.meta(prover.meta).assignment.as_ref().unwrap().args.clone();
    let members: Vec<(usize, bool)> =
        pending.groups[0].members.iter().map(|m| (m.meta, m.eligible)).collect();
    assert_eq!(members, vec![(args[0], false), (args[1], true)]);
    let components = split(&pending.groups, &vec![vec![1, 1]]).unwrap();
    assert_eq!(components[0].next.meta, args[1]);
    assert_eq!(components[0].unassigned, vec![args[0]]);
    assert_eq!(finish(&dependent_pair()), "λ N P R mk x y q ↦ mk x q");
}

#[test]
fn who_is_involved_with_whom() {
    let (store, mut ids, prover, _) = opened(&dependent_pair());
    let args = store.meta(prover.meta).assignment.as_ref().unwrap().args.clone();
    assert!(can_involve(&store, args[1]));
    assert!(!can_involve(&store, 1_000_000));
    assert!(involved_with(&store, args[1]).contains(&(args[0], true)));
    assert!(involved_with(&store, args[0]).is_empty());
    let unassigned = vec![args[0], args[1]];
    let inverse = involved_inverse(&store, &unassigned);
    assert_eq!(inverse.get(&args[0]), Some(&vec![(1, true)]));
    let buckets = partition(&store, &unassigned, &inverse);
    assert_eq!(buckets.len(), 1);
    let pairs = |b: &Vec<NextInfo>| b.iter().map(|m| (m.meta, m.eligible)).collect::<Vec<_>>();
    assert_eq!(pairs(&buckets[0]), vec![(args[0], false), (args[1], true)]);
    let apart = partition(&store, &unassigned, &HashMap::new());
    assert_eq!(apart.len(), 2);
    assert_eq!(pairs(&apart[0]), vec![(args[0], true)]);
    assert_eq!(pairs(&apart[1]), vec![(args[1], true)]);
    let groups =
        group(&store, &unassigned, &FxHashMap::default(), FUEL, &mut ids).unwrap();
    assert_eq!(groups.len(), 1);
    assert_eq!(groups[0].infos.len(), 2);
    let r = group(&store, &vec![1_000_000], &FxHashMap::default(), FUEL, &mut ids);
    assert!(matches!(r, Err(Fault::Malformed)));
}

fn info(meta: usize, rigid: bool) -> MetaInfo {
    MetaInfo {
        meta,
        has_rigid_equation: rigid,
        bin: 0,
        current_stats: MetaStats::new(),
        future_stats: MetaStats::new(),
    }
}

fn member(meta: usize, eligible: bool) -> NextInfo {
    NextInfo { meta, eligible }
}

#[test]
fn the_next_metavariable_of_a_component() {
    let all = vec![member(1, true), member(2, true), member(3, true)];
    let loose = vec![info(1, false), info(2, false), info(3, false)];
    assert_eq!(select_next(&all, &loose, &vec![5, 9, 5]), 1);
    assert_eq!(select_next(&all, &loose, &vec![5, 5, 5]), 2);
    let some = vec![member(1, true), member(2, false), member(3, false)];
    assert_eq!(select_next(&some, &loose, &vec![1, 9, 9]), 0);
    let none = vec![member(1, false), member(2, false), member(3, false)];
    assert!(!can_select(&none, &loose));
    assert!(can_select(&some, &loose));
    let rigid = vec![info(1, false), info(2, true), info(3, true)];
    assert!(can_select(&none, &rigid));
    assert_eq!(select_next(&none, &rigid, &vec![1, 1, 1]), 1);
}

#[test]
fn the_frame_with_the_least_margin_is_next() {
    assert_eq!(select_frame(&vec![3, -2, 5]), 1);
    assert_eq!(select_frame(&vec![4, 4]), 0);
}

fn outcome(unknown_count: u32) -> DFSResult {
    DFSResult { unknown_count, solution_count: 0, steps: 1, branching: 1, attempts: 1 }
}

#[test]
fn results_add_up() {
    let mut a = outcome(2);
    a.add(outcome(3));
    assert_eq!((a.unknown_count, a.steps, a.branching, a.attempts), (5, 2, 2, 2));
}

#[test]
fn statistics_of_metavariables() {
    let mut map: FxHashMap<u64, MetaStats> = FxHashMap::default();
    let mut found = SearchInfo::new();
    found.add(&SearchInfo {
        dfs_completed: true,
        assignment_completed: true,
        unknown: false,
    });
    info(1, false).log(&mut map, &outcome(0), &found);
    info(1, false).log(&mut map, &outcome(4), &SearchInfo::new());
    let s = map[&0];
    assert_eq!((s.attempts, s.completed_count, s.failures), (2, 1, 1));
    found.assignment_fence();
    assert!(found.dfs_completed && !found.assignment_completed);
    found.dfs_fence();
    assert!(!found.dfs_completed && !found.unknown);
    found.add(&SearchInfo { unknown: true, ..SearchInfo::new() });
    found.dfs_fence();
    assert!(found.unknown);
}

#[test]
fn maps_of_statistics_are_merged() {
    let one = |attempts: u32| MetaStats { completed_count: 1, attempts, failures: 0 };
    let mut acc: FxHashMap<u64, MetaStats> = FxHashMap::default();
    acc.insert(1, one(2));
    acc.insert(2, one(5));
    let mut data: FxHashMap<u64, MetaStats> = FxHashMap::default();
    data.insert(2, one(7));
    data.insert(3, one(1));
    assert!(can_merge(&data, &acc));
    meta_op(&data, &mut acc);
    assert_eq!(acc.len(), 3);
    assert_eq!(acc[&1].attempts, 2);
    assert_eq!((acc[&2].attempts, acc[&2].completed_count), (12, 2));
    assert_eq!(acc[&3].attempts, 1);
    data.insert(2, one(u32::MAX));
    assert!(!can_merge(&data, &acc));
}

#[test]
fn statistics_of_assignments() {
    let mut map: FxHashMap<u64, AssignmentStats> = FxHashMap::default();
    let info = AssignmentInfo {
        meta: 0,
        constraints_generated: 0,
        had_rigid_equation: false,
        has_rigid_type: true,
        bin: 6,
    };
    assert_eq!(info.stats(&map).count, 0);
    info.log(&mut map, true, true);
    info.log(&mut map, true, false);
    info.log(&mut map, false, true);
    let s = info.stats(&map);
    assert_eq!((s.count, s.completion_count, s.completion_share), (3, 2, 1));
    let mut acc: FxHashMap<u64, AssignmentStats> = FxHashMap::default();
    assignment_op(&map, &mut acc);
    assignment_op(&map, &mut acc);
    assert_eq!(acc[&6].count, 6);
}

#[test]
fn statistics_of_a_bin_reach_its_metavariables() {
    let (store, mut ids, prover, _) = opened(&pair());
    let args = store.meta(prover.meta).assignment.as_ref().unwrap().args.clone();
    let blank: FxHashMap<u64, MetaStats> = FxHashMap::default();
    let first = MetaInfo::new(&store, args[0], &blank, FUEL, &mut ids).unwrap();
    assert!(!first.has_rigid_equation);
    let mut map: FxHashMap<u64, MetaStats> = FxHashMap::default();
    map.insert(first.bin, MetaStats { completed_count: 1, attempts: 4, failures: 2 });
    map.insert(first.bin + 1, MetaStats { completed_count: 0, attempts: 3, failures: 1 });
    let again = MetaInfo::new(&store, args[0], &map, FUEL, &mut ids).unwrap();
    assert_eq!(again.bin, first.bin);
    assert_eq!(again.current_stats.attempts, 4);
    assert_eq!(again.future_stats.attempts, 7);
}

#[test]
fn the_limit_on_steps() {
    assert!(!over_limit(5, 5));
    assert!(over_limit(6, 5));
    assert!(!over_limit(u32::MAX, u32::MAX));
}

#[test]
fn merging_in_either_order_gives_the_same() {
    let one = |attempts: u32| MetaStats { completed_count: 0, attempts, failures: 1 };
    let a: FxHashMap<u64, MetaStats> = [(1, one(2)), (2, one(3))].into_iter().collect();
    let b: FxHashMap<u64, MetaStats> = [(2, one(4)), (3, one(5))].into_iter().collect();
    let mut left = a.clone();
    meta_op(&b, &mut left);
    let mut right = b.clone();
    meta_op(&a, &mut right);
    assert_eq!(left.len(), right.len());
    for (key, stats) in &left {
        assert_eq!(stats.attempts, right[key].attempts);
        assert_eq!(stats.failures, right[key].failures);
    }
}

#[test]
fn going_back_leaves_no_trace() {
    let mut store = Store::new();
    let mut ids = Ids::new(0);
    let stats = FxHashMap::default();
    let mut sites: Vec<(BindId, ES)> = Vec::new();
    let mut prover = dependent_pair()
        .start("proof".to_string(), &mut store, &stats, FUEL, &mut ids, &mut sites)
        .unwrap();
    prover.restart(&mut store, FUEL, &mut ids).unwrap();
    let state = |store: &Store, n: usize| -> Vec<(bool, usize)> {
        store.metas[..n].iter().map(|m| (m.assignment.is_some(), m.constraints.len())).collect()
    };
    let n = store.metas.len();
    let before = state(&store, n);
    let mut constrained = false;
    loop {
        let margins = vec![0; prover.frames.len()];
        match prover.advance(&mut store, &margins, 10) {
            Move::Assign(f) => {
                let c = prover.pop_candidate(f).unwrap();
                let pending = prover.begin(&mut store, f, c, &stats, FUEL, &mut ids).unwrap();
                let difficulty = pending.groups.iter().map(|g| vec![1; g.infos.len()]).collect();
                prover.finish(&mut store, &pending, &difficulty, false, FUEL, &mut ids).unwrap();
                constrained = constrained || store.metas.iter().any(|m| !m.constraints.is_empty());
            }
            Move::Solved => break,
            Move::Exhausted => panic!("there is a solution"),
            _ => {}
        }
    }
    assert!(constrained);
    assert_ne!(state(&store, n), before);
    prover.backtrack(&mut store, 0);
    assert_eq!(state(&store, n), before);
    assert!(store.metas[n..].iter().all(|m| m.assignment.is_none() && m.constraints.is_empty()));
}
