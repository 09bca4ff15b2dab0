use canonical::ab::{
    sample, sample_names, solved_line, Generator, Run, Score, Watchdog, STEP_LIMIT,
};

fn letters() -> Vec<char> {
    "abcdefghij".chars().collect()
}

#[test]
fn the_generator_shifts_and_combines() {
    let mut g = Generator::new(0);
    assert_eq!(g.state, 1);
    let mut s: u64 = 1;
    for _ in 0..5 {
        s ^= s << 13;
        s ^= s >> 7;
        s ^= s << 17;
        assert_eq!(g.draw(), s);
        assert_ne!(s, 0);
    }
    assert_eq!(Generator::new(0).draw(), 1 + (1 << 13) + (1 << 6) + (1 << 17) + (1 << 30) + (1 << 23));
}

#[test]
fn equal_seeds_give_equal_samples() {
    assert_eq!(sample(letters(), 4, 99), sample(letters(), 4, 99));
    assert_eq!(sample(letters(), 4, 98), sample(letters(), 4, 99));
    assert_ne!(sample(letters(), 9, 98), sample(letters(), 9, 12345));
}

#[test]
fn the_first_drawn_item_follows_from_the_generator() {
    let j = (Generator::new(5).draw() as usize) % 10;
    assert_eq!(sample(letters(), 1, 5), vec![letters()[j]]);
}

#[test]
fn samples_hold_no_item_twice() {
    let mut all = sample(letters(), 10, 7);
    all.sort();
    assert_eq!(all, letters());
    assert_eq!(sample(letters(), 100, 7).len(), 10);
    assert!(sample(letters(), 0, 7).is_empty());
    assert!(sample(Vec::<char>::new(), 3, 7).is_empty());
}

#[test]
fn smaller_samples_begin_larger_ones() {
    let large = sample(letters(), 8, 31);
    assert_eq!(sample(letters(), 3, 31), large[..3].to_vec());
}

#[test]
fn names_are_sampled_whatever_their_order() {
    let names = |s: &[&str]| s.iter().map(|n| n.to_string()).collect::<Vec<String>>();
    let some = ["b.bin", "a.bin", "notes.txt", ".bin", "ab.bin", "x.bin.old", "bin", "B.bin"];
    let mut other = some;
    other.reverse();
    let all = sample_names(names(&some), 10, 5);
    assert_eq!(sample_names(names(&other), 10, 5), all);
    assert_eq!(sample_names(names(&other), 2, 5), all[..2].to_vec());
    assert_eq!(all, sample(names(&["B.bin", "a.bin", "ab.bin", "b.bin"]), 10, 5));
    assert_eq!(sample_names(names(&["é.bin", "z.bin", "z.bin2"]), 2, 1).len(), 2);
}

#[test]
fn the_watchdog_waits_for_two_looks() {
    let mut w = Watchdog::new();
    assert!(!w.look(10, true));
    assert!(!w.look(10, true));
    assert!(w.look(10, true));
    assert!(!w.look(11, true));
    assert!(!w.look(11, true));
    assert!(!w.look(11, false));
    assert!(!w.look(11, true));
    assert!(w.look(11, true));
}

#[test]
fn scores_and_their_lines() {
    let mut score = Score::new();
    let name = "p1".to_string();
    let solved = Run { steps: 12, solution_count: 1 };
    let quick = Run { steps: 0, solution_count: 2 };
    let failed = Run { steps: 7, solution_count: 0 };
    let (line, steps) = score.example(&name, &Some((solved, quick)));
    assert_eq!(line, "p1, 12, true, 0, true");
    assert_eq!(steps, Some((12, 1)));
    let (line, steps) = score.example(&name, &Some((failed, solved)));
    assert_eq!(line, "p1, 7, false, 12, true");
    assert_eq!(steps, None);
    let (line, steps) = score.example(&name, &None);
    assert_eq!(line, "p1, error, , , ");
    assert_eq!(steps, None);
    assert_eq!((score.first, score.second, score.both), (1, 2, 1));
    assert_eq!(solved_line(&"A".to_string(), score.first, 3), "A solved: 1/3");
    assert_eq!(STEP_LIMIT, 10_000_000);
}
