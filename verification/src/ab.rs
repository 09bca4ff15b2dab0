//! Comparing two configurations of the search on a sample of problems.
use crate::text::{append_decimal, decimal};
use vstd::prelude::*;

verus! {

/// The step limit shared by both runs of each example.
pub const STEP_LIMIT: u32 = 10_000_000;

/// The state of the generator after `state`.
pub open spec fn xorshift(state: u64) -> u64 {
    let a = state ^ (state << 13);
    let b = a ^ (a >> 7);
    b ^ (b << 17)
}

/// The state of the generator with the given seed after `n` draws.
pub open spec fn drawn(seed: u64, n: nat) -> u64
    decreases n,
{
    if n == 0 {
        seed | 1
    } else {
        xorshift(drawn(seed, (n - 1) as nat))
    }
}

/// A pseudorandom number generator.
#[derive(Debug)]
pub struct Generator {
    pub state: u64,
}

impl Generator {
    /// The generator with the given seed.
    pub fn new(seed: u64) -> (r: Generator)
        ensures
            r.state == drawn(seed, 0),
    {
        Generator { state: seed | 1 }
    }

    /// The next number.
    pub fn draw(&mut self) -> (r: u64)
        ensures
            r == xorshift(old(self).state),
            final(self).state == r,
    {
        let mut state: u64 = self.state;
        state = state ^ (state << 13);
        state = state ^ (state >> 7);
        state = state ^ (state << 17);
        self.state = state;
        state
    }
}

/// A generator that is not at zero never gets there.
pub proof fn law_generator_runs(seed: u64, n: nat)
    ensures
        drawn(seed, n) != 0,
    decreases n,
{
    if n == 0 {
        assert(seed | 1 != 0) by (bit_vector);
    } else {
        law_generator_runs(seed, (n - 1) as nat);
        let s = drawn(seed, (n - 1) as nat);
        assert(s != 0 ==> s ^ (s << 13) != 0) by (bit_vector);
        let a = s ^ (s << 13);
        assert(a != 0 ==> a ^ (a >> 7) != 0) by (bit_vector);
        let b = a ^ (a >> 7);
        assert(b != 0 ==> b ^ (b << 17) != 0) by (bit_vector);
    }
}

/// `items` with the places `i` and `j` exchanged.
pub open spec fn exchanged<T>(items: Seq<T>, i: int, j: int) -> Seq<T> {
    items.update(i, items[j]).update(j, items[i])
}

/// The place that is exchanged with the `i`th of `len`.
pub open spec fn partner(seed: u64, i: nat, len: nat) -> int {
    i + ((drawn(seed, i + 1) as usize) as int) % (len - i)
}

/// `items` after the first `k` places have been drawn.
pub open spec fn shuffled<T>(items: Seq<T>, seed: u64, k: nat) -> Seq<T>
    decreases k,
{
    if k == 0 {
        items
    } else {
        exchanged(
            shuffled(items, seed, (k - 1) as nat),
            k - 1,
            partner(seed, (k - 1) as nat, items.len()),
        )
    }
}

/// The number of items in a sample.
pub open spec fn sample_size(n: nat, len: nat) -> nat {
    if n < len {
        n
    } else {
        len
    }
}

/// The sample of `n` of the `items`.
pub open spec fn sampled<T>(items: Seq<T>, n: nat, seed: u64) -> Seq<T> {
    let k = sample_size(n, items.len());
    shuffled(items, seed, k).take(k as int)
}

/// Choose `n` random items, deterministically given `seed`.
pub fn sample<T>(items: Vec<T>, n: usize, seed: u64) -> (r: Vec<T>)
    ensures
        r@ == sampled(items@, n as nat, seed),
{
    let mut items = items;
    let ghost start = items@;
    let mut generator = Generator::new(seed);
    let len: usize = items.len();
    let count: usize = if n < len {
        n
    } else {
        len
    };
    let mut i: usize = 0;
    while i < count
        invariant
            i <= count <= len,
            len == start.len(),
            items@.len() == len,
            items@ == shuffled(start, seed, i as nat),
            generator.state == drawn(seed, i as nat),
        decreases count - i,
    {
        let number: u64 = generator.draw();
        let offset: usize = (number as usize) % (len - i);
        let j: usize = i + offset;
        proof {
            assert(number == drawn(seed, (i + 1) as nat));
            assert(j == partner(seed, i as nat, len as nat));
        }
        let ghost before = items@;
        if i < j {
            let later = items.remove(j);
            let earlier = items.remove(i);
            items.insert(i, later);
            items.insert(j, earlier);
        }
        assert(items@ =~= exchanged(before, i as int, j as int));
        i = i + 1;
    }
    items.truncate(count);
    items
}

proof fn lemma_exchange_keeps<T>(items: Seq<T>, i: int, j: int)
    requires
        0 <= i < items.len(),
        0 <= j < items.len(),
    ensures
        exchanged(items, i, j).len() == items.len(),
        exchanged(items, i, j).to_multiset() == items.to_multiset(),
{
    broadcast use {
        vstd::multiset::group_multiset_axioms,
        vstd::multiset::group_multiset_properties,
    };

    let step = items.update(i, items[j]);
    vstd::seq_lib::to_multiset_update(items, i, items[j]);
    vstd::seq_lib::to_multiset_update(step, j, items[i]);
    vstd::seq_lib::to_multiset_contains(items, items[j]);
    vstd::seq_lib::to_multiset_contains(items, items[i]);
    assert(exchanged(items, i, j).to_multiset() =~= items.to_multiset());
}

proof fn lemma_shuffle_keeps<T>(items: Seq<T>, seed: u64, k: nat)
    requires
        k <= items.len(),
    ensures
        shuffled(items, seed, k).len() == items.len(),
        shuffled(items, seed, k).to_multiset() == items.to_multiset(),
    decreases k,
{
    if k > 0 {
        lemma_shuffle_keeps(items, seed, (k - 1) as nat);
        lemma_exchange_keeps(
            shuffled(items, seed, (k - 1) as nat),
            k - 1,
            partner(seed, (k - 1) as nat, items.len()),
        );
    }
}

/// A sample holds as many items as asked for, or all where there are fewer, and none of them
/// more often than there is.
pub proof fn law_sample_draws<T>(items: Seq<T>, n: nat, seed: u64)
    ensures
        sampled(items, n, seed).len() == sample_size(n, items.len()),
        sampled(items, n, seed).to_multiset().subset_of(items.to_multiset()),
{
    let k = sample_size(n, items.len());
    let all = shuffled(items, seed, k);
    lemma_shuffle_keeps(items, seed, k);
    broadcast use vstd::seq_lib::group_to_multiset_ensures;

    vstd::seq_lib::lemma_multiset_commutative(all.take(k as int), all.skip(k as int));
    assert(all =~= all.take(k as int) + all.skip(k as int));
}

/// A smaller sample with the same seed is the beginning of a larger one.
pub proof fn law_samples_nest<T>(items: Seq<T>, m: nat, n: nat, seed: u64)
    requires
        m <= n,
    ensures
        sampled(items, m, seed).is_prefix_of(sampled(items, n, seed)),
{
    let a = sample_size(m, items.len());
    let b = sample_size(n, items.len());
    lemma_prefix_settled(items, seed, a, b);
    lemma_shuffle_keeps(items, seed, a);
    lemma_shuffle_keeps(items, seed, b);
    assert(sampled(items, m, seed) =~= sampled(items, n, seed).take(a as int));
}

proof fn lemma_prefix_settled<T>(items: Seq<T>, seed: u64, a: nat, b: nat)
    requires
        a <= b <= items.len(),
    ensures
        shuffled(items, seed, b).take(a as int) == shuffled(items, seed, a).take(a as int),
    decreases b,
{
    if a < b {
        lemma_prefix_settled(items, seed, a, (b - 1) as nat);
        lemma_shuffle_keeps(items, seed, (b - 1) as nat);
        let before = shuffled(items, seed, (b - 1) as nat);
        let j = partner(seed, (b - 1) as nat, items.len());
        assert(shuffled(items, seed, b).take(a as int) =~= before.take(a as int));
    }
}

/// Whether `a` comes before `b` in the order of their characters, or is `b`, from the `i`th
/// character on.
pub open spec fn sorts_before(a: Seq<char>, b: Seq<char>, i: nat) -> bool
    decreases a.len() - i,
{
    if i >= a.len() {
        true
    } else if i >= b.len() {
        false
    } else if a[i as int] != b[i as int] {
        (a[i as int] as int) < (b[i as int] as int)
    } else {
        sorts_before(a, b, i + 1)
    }
}

/// The order of names.
pub open spec fn name_order() -> spec_fn(Seq<char>, Seq<char>) -> bool {
    |a: Seq<char>, b: Seq<char>| sorts_before(a, b, 0)
}

proof fn lemma_order(a: Seq<char>, b: Seq<char>, c: Seq<char>, i: nat)
    requires
        i <= a.len(),
        i <= b.len(),
        i <= c.len(),
    ensures
        sorts_before(a, a, i),
        sorts_before(a, b, i) || sorts_before(b, a, i),
        sorts_before(a, b, i) && sorts_before(b, a, i) ==> a.skip(i as int) == b.skip(i as int),
        sorts_before(a, b, i) && sorts_before(b, c, i) ==> sorts_before(a, c, i),
    decreases a.len() - i,
{
    if i < a.len() {
        if i < b.len() && i < c.len() {
            lemma_order(a, b, c, i + 1);
        } else {
            lemma_order(a, a, a, i + 1);
            if i < b.len() {
                lemma_order(a, b, a, i + 1);
            }
        }
        if i < b.len() && a[i as int] == b[i as int] && sorts_before(a, b, i) && sorts_before(
            b,
            a,
            i,
        ) {
            let (s, t) = (a.skip(i as int), b.skip(i as int));
            assert(a.skip(i as int + 1) == b.skip(i as int + 1));
            assert forall|k: int| 0 <= k < s.len() implies s[k] == #[trigger] t[k] by {
                if k > 0 {
                    assert(a.skip(i as int + 1)[k - 1] == b.skip(i as int + 1)[k - 1]);
                }
            }
            assert(a.skip(i as int + 1).len() == b.skip(i as int + 1).len());
            assert(s =~= t);
        }
    } else {
        if sorts_before(b, a, i) {
            assert(a.skip(i as int) =~= b.skip(i as int));
        }
    }
}

proof fn lemma_total()
    ensures
        vstd::relations::total_ordering(name_order()),
{
    let r = name_order();
    assert forall|a: Seq<char>| #[trigger] r(a, a) by {
        lemma_order(a, a, a, 0);
    }
    assert forall|a: Seq<char>, b: Seq<char>| #[trigger] r(a, b) && #[trigger] r(b, a) implies a
        == b by {
        lemma_order(a, b, a, 0);
        assert(a.skip(0) =~= a);
        assert(b.skip(0) =~= b);
    }
    assert forall|a: Seq<char>, b: Seq<char>, c: Seq<char>| #[trigger]
        r(a, b) && #[trigger] r(b, c) implies r(a, c) by {
        lemma_order(a, b, c, 0);
    }
    assert forall|a: Seq<char>, b: Seq<char>| #[trigger] r(a, b) || #[trigger] r(b, a) by {
        lemma_order(a, b, a, 0);
    }
}

/// Whether the name of a file has the extension of saved problems.
pub open spec fn is_problem(name: Seq<char>) -> bool {
    let n = name.len();
    n > 4 && name[n - 4] == '.' && name[n - 3] == 'b' && name[n - 2] == 'i' && name[n - 1] == 'n'
}

/// The contents of texts.
pub open spec fn texts(v: Seq<String>) -> Seq<Seq<char>> {
    v.map_values(|s: String| s@)
}

/// The names of saved problems among `names`, in order.
pub open spec fn problem_names(names: Seq<Seq<char>>) -> Seq<Seq<char>> {
    names.sort_by(name_order()).filter(|s: Seq<char>| is_problem(s))
}

/// The characters of a text.
fn characters(s: &String) -> (r: Vec<char>)
    ensures
        r@ == s@,
{
    let mut out: Vec<char> = Vec::new();
    let text: &str = s.as_str();
    let n: usize = text.unicode_len();
    let mut i: usize = 0;
    while i < n
        invariant
            i <= n,
            n == text@.len(),
            text@ == s@,
            out@ == text@.take(i as int),
        decreases n - i,
    {
        out.push(text.get_char(i));
        i = i + 1;
        assert(text@.take(i as int) =~= text@.take(i - 1).push(text@[i - 1]));
    }
    assert(text@.take(n as int) =~= text@);
    out
}

/// Whether `a` comes before `b`, or is `b`.
fn comes_before(a: &Vec<char>, b: &Vec<char>) -> (r: bool)
    ensures
        r == sorts_before(a@, b@, 0),
{
    let mut i: usize = 0;
    while i < a.len()
        invariant
            i <= a@.len(),
            i <= b@.len(),
            sorts_before(a@, b@, 0) == sorts_before(a@, b@, i as nat),
        decreases a@.len() - i,
    {
        if i >= b.len() {
            return false;
        }
        let (x, y): (char, char) = (a[i], b[i]);
        if x != y {
            return x < y;
        }
        i = i + 1;
    }
    true
}

/// Whether the name has the extension of saved problems.
fn names_problem(name: &Vec<char>) -> (r: bool)
    ensures
        r == is_problem(name@),
{
    let n: usize = name.len();
    n > 4 && name[n - 4] == '.' && name[n - 3] == 'b' && name[n - 2] == 'i' && name[n - 1] == 'n'
}

/// The keys of `sorted`, which is sorted.
spec fn keyed(keys: Seq<Vec<char>>, sorted: Seq<String>) -> bool {
    &&& keys.len() == sorted.len()
    &&& forall|i: int| 0 <= i < keys.len() ==> (#[trigger] keys[i])@ == sorted[i]@
    &&& vstd::relations::sorted_by(texts(sorted), name_order())
}

/// Puts the name in its place.
fn put(keys: &mut Vec<Vec<char>>, sorted: &mut Vec<String>, name: String)
    requires
        keyed(old(keys)@, old(sorted)@),
    ensures
        keyed(final(keys)@, final(sorted)@),
        texts(final(sorted)@).to_multiset() == texts(old(sorted)@).to_multiset().insert(name@),
{
    let key = characters(&name);
    let ghost order = name_order();
    let ghost before = texts(sorted@);
    proof {
        lemma_total();
    }
    let mut at: usize = keys.len();
    while at > 0 && !comes_before(&keys[at - 1], &key)
        invariant
            at <= keys@.len(),
            keyed(keys@, sorted@),
            before == texts(sorted@),
            order == name_order(),
            key@ == name@,
            vstd::relations::total_ordering(order),
            forall|j: int| at <= j < before.len() ==> order(key@, #[trigger] before[j]),
        decreases at,
    {
        at = at - 1;
        proof {
            assert(keys@[at as int]@ == before[at as int]);
            assert(!order(before[at as int], key@));
            assert(order(before[at as int], key@) || order(key@, before[at as int]));
        }
    }
    proof {
        if at > 0 {
            assert(keys@[at - 1]@ == before[at - 1]);
            assert(order(before[at - 1], key@));
        }
        assert forall|j: int| 0 <= j < at implies order(#[trigger] before[j], key@) by {
            if j < at - 1 {
                assert(order(before[j], before[at - 1]));
            }
        }
    }
    let ghost old_keys = keys@;
    let ghost old_sorted = sorted@;
    keys.insert(at, key);
    sorted.insert(at, name);
    proof {
        let after = texts(sorted@);
        assert(after =~= before.insert(at as int, name@));
        vstd::seq_lib::to_multiset_insert(before, at as int, name@);
        assert forall|i: int, j: int| 0 <= i < j < after.len() implies #[trigger] order(
            after[i],
            after[j],
        ) by {
            let (a, b) = (
                if i < at {
                    i
                } else {
                    i - 1
                },
                if j < at {
                    j
                } else {
                    j - 1
                },
            );
            if i != at && j != at {
                assert(order(before[a], before[b]));
            } else if i == at {
                assert(order(key@, before[b]));
            } else {
                assert(order(before[a], key@));
            }
        }
        assert forall|i: int| 0 <= i < keys@.len() implies (#[trigger] keys@[i])@
            == sorted@[i]@ by {
            if i < at {
                assert(old_keys[i]@ == old_sorted[i]@);
            } else if i > at {
                assert(old_keys[i - 1]@ == old_sorted[i - 1]@);
            }
        }
    }
}

/// Choose `n` random names of saved problems, deterministically given `seed`.
pub fn sample_names(names: Vec<String>, n: usize, seed: u64) -> (r: Vec<String>)
    ensures
        texts(r@) == sampled(problem_names(texts(names@)), n as nat, seed),
{
    let mut rest = names;
    let ghost all = texts(rest@);
    let mut keys: Vec<Vec<char>> = Vec::new();
    let mut sorted: Vec<String> = Vec::new();
    assert(texts(sorted@) =~= Seq::empty());
    broadcast use {
        vstd::seq_lib::group_to_multiset_ensures,
        vstd::multiset::group_multiset_axioms,
    };

    while rest.len() > 0
        invariant
            keyed(keys@, sorted@),
            texts(sorted@).to_multiset().add(texts(rest@).to_multiset()) == all.to_multiset(),
        decreases rest@.len(),
    {
        let ghost left = texts(rest@);
        let ghost done = texts(sorted@);
        match rest.pop() {
            None => {},
            Some(name) => {
                proof {
                    assert(left =~= texts(rest@).push(name@));
                    vstd::seq_lib::to_multiset_build(texts(rest@), name@);
                }
                put(&mut keys, &mut sorted, name);
                assert(texts(sorted@).to_multiset().add(texts(rest@).to_multiset())
                    =~= done.to_multiset().add(left.to_multiset()));
            },
        }
    }
    proof {
        lemma_total();
        assert(texts(rest@) =~= Seq::<Seq<char>>::empty());
        assert(texts(sorted@).to_multiset().add(texts(rest@).to_multiset())
            =~= texts(sorted@).to_multiset());
        all.lemma_sort_by_ensures(name_order());
        vstd::seq_lib::lemma_sorted_unique(
            texts(sorted@),
            all.sort_by(name_order()),
            name_order(),
        );
    }
    let ghost order = texts(sorted@);
    let ghost wanted = |s: Seq<char>| is_problem(s);
    let mut chosen: Vec<String> = Vec::new();
    let mut i: usize = 0;
    assert(texts(chosen@) =~= order.take(0).filter(wanted));
    while i < sorted.len()
        invariant
            i <= sorted@.len(),
            keyed(keys@, sorted@),
            order == texts(sorted@),
            wanted == (|s: Seq<char>| is_problem(s)),
            texts(chosen@) == order.take(i as int).filter(wanted),
        decreases sorted@.len() - i,
    {
        let ghost before = texts(chosen@);
        proof {
            reveal(Seq::filter);
            let t = order.take(i + 1);
            assert(t.drop_last() =~= order.take(i as int));
            assert(t.last() == order[i as int]);
            assert(keys@[i as int]@ == order[i as int]);
            assert(t.filter(wanted) == if wanted(t.last()) {
                before.push(t.last())
            } else {
                before
            });
        }
        if names_problem(&keys[i]) {
            chosen.push(sorted[i].clone());
            assert(texts(chosen@) =~= before.push(order[i as int]));
        }
        i = i + 1;
    }
    assert(order.take(i as int) =~= order);
    let ghost from = chosen@;
    let r = sample(chosen, n, seed);
    proof {
        lemma_sampled_texts(from, n as nat, seed);
    }
    r
}

proof fn lemma_sampled_texts(items: Seq<String>, n: nat, seed: u64)
    ensures
        texts(sampled(items, n, seed)) == sampled(texts(items), n, seed),
{
    let k = sample_size(n, items.len());
    lemma_shuffled_texts(items, seed, k);
    lemma_shuffle_keeps(items, seed, k);
    assert(texts(sampled(items, n, seed)) =~= sampled(texts(items), n, seed));
}

proof fn lemma_shuffled_texts(items: Seq<String>, seed: u64, k: nat)
    requires
        k <= items.len(),
    ensures
        texts(shuffled(items, seed, k)) == shuffled(texts(items), seed, k),
    decreases k,
{
    if k > 0 {
        lemma_shuffled_texts(items, seed, (k - 1) as nat);
        lemma_shuffle_keeps(items, seed, (k - 1) as nat);
        assert(texts(shuffled(items, seed, k)) =~= shuffled(texts(items), seed, k));
    }
}

/// With the same seed, the same names give the same sample, in whatever order they come, and a
/// smaller sample is the beginning of a larger one.
pub proof fn law_sample_names(
    a: Seq<Seq<char>>,
    b: Seq<Seq<char>>,
    m: nat,
    n: nat,
    seed: u64,
)
    requires
        a.to_multiset() == b.to_multiset(),
        m <= n,
    ensures
        sampled(problem_names(a), n, seed) == sampled(problem_names(b), n, seed),
        sampled(problem_names(a), m, seed).is_prefix_of(sampled(problem_names(b), n, seed)),
{
    lemma_total();
    a.lemma_sort_by_ensures(name_order());
    b.lemma_sort_by_ensures(name_order());
    vstd::seq_lib::lemma_sorted_unique(
        a.sort_by(name_order()),
        b.sort_by(name_order()),
        name_order(),
    );
    law_samples_nest(problem_names(a), m, n, seed);
}

/// Notices when a search no longer takes steps.
#[derive(Debug)]
pub struct Watchdog {
    /// The number of steps at the last look.
    pub prev: u32,
    /// For how many looks in a row no step has been taken.
    pub stalled: u32,
}

impl Watchdog {
    pub fn new() -> (r: Watchdog)
        ensures
            r == (Watchdog { prev: u32::MAX, stalled: 0 }),
    {
        Watchdog { prev: u32::MAX, stalled: 0 }
    }

    /// The watchdog after it has seen that `count` steps were taken so far.
    pub open spec fn after(self, count: u32, running: bool) -> Watchdog {
        Watchdog {
            prev: count,
            stalled: if count == self.prev && running {
                (self.stalled + 1) as u32
            } else {
                0
            },
        }
    }

    /// Looks at the search, and returns whether to cancel it: no steps occurred for two
    /// consecutive looks.
    pub fn look(&mut self, count: u32, running: bool) -> (r: bool)
        requires
            old(self).stalled < u32::MAX,
        ensures
            *final(self) == old(self).after(count, running),
            r == (final(self).stalled >= 2),
    {
        self.stalled = if count == self.prev && running {
            self.stalled + 1
        } else {
            0
        };
        self.prev = count;
        self.stalled >= 2
    }
}

/// A search is cancelled just when three looks in a row saw the same number of steps and the
/// last two saw it running.
pub proof fn law_watchdog_patience(w: Watchdog, a: u32, b: u32, c: u32, ra: bool, rb: bool, rc: bool)
    requires
        w.stalled == 0,
        a != w.prev || !ra,
    ensures
        (w.after(a, ra).after(b, rb).after(c, rc).stalled >= 2) <==> (a == b && b == c && rb && rc),
{
}

/// The result of one run.
#[derive(Debug, Clone, Copy)]
pub struct Run {
    pub steps: u32,
    pub solution_count: u32,
}

/// What is known of the examples so far.
#[derive(Debug)]
pub struct Score {
    /// How many were solved with the first configuration.
    pub first: u32,
    /// How many were solved with the second configuration.
    pub second: u32,
    /// How many were solved with both.
    pub both: u32,
}

impl Score {
    pub fn new() -> (r: Score)
        ensures
            r == (Score { first: 0, second: 0, both: 0 }),
    {
        Score { first: 0, second: 0, both: 0 }
    }

    pub open spec fn with(self, first: bool, second: bool) -> Score {
        Score {
            first: (self.first + if first { 1int } else { 0 }) as u32,
            second: (self.second + if second { 1int } else { 0 }) as u32,
            both: (self.both + if first && second { 1int } else { 0 }) as u32,
        }
    }

    /// Takes whether one more example was solved. Returns whether both runs solved it.
    fn record(&mut self, first: bool, second: bool) -> (r: bool)
        requires
            old(self).first < u32::MAX,
            old(self).second < u32::MAX,
            old(self).both < u32::MAX,
        ensures
            *final(self) == old(self).with(first, second),
            r == (first && second),
    {
        if first {
            self.first = self.first + 1;
        }
        if second {
            self.second = self.second + 1;
        }
        if first && second {
            self.both = self.both + 1;
        }
        first && second
    }
}

/// `steps`, where none counts as one.
pub open spec fn at_least_one(steps: u32) -> u32 {
    if steps == 0 {
        1
    } else {
        steps
    }
}

/// The numbers of steps by which two runs are compared: none counts as one.
fn compared_steps(first: u32, second: u32) -> (r: (u32, u32))
    ensures
        r == (at_least_one(first), at_least_one(second)),
{
    let a: u32 = if first == 0 {
        1
    } else {
        first
    };
    let b: u32 = if second == 0 {
        1
    } else {
        second
    };
    (a, b)
}

/// The text for whether an example was solved.
pub open spec fn solved_text(solved: bool) -> Seq<char> {
    if solved {
        "true"@
    } else {
        "false"@
    }
}

/// The line of the report for one example.
pub open spec fn line_text(
    name: Seq<char>,
    a_steps: u32,
    a_solved: bool,
    b_steps: u32,
    b_solved: bool,
) -> Seq<char> {
    name + ", "@ + decimal(a_steps as nat) + ", "@ + solved_text(a_solved) + ", "@ + decimal(
        b_steps as nat,
    ) + ", "@ + solved_text(b_solved)
}

fn append_solved(out: &mut String, solved: bool)
    ensures
        final(out)@ == old(out)@ + solved_text(solved),
{
    if solved {
        out.append("true");
    } else {
        out.append("false");
    }
}

/// The line of the report for one example.
fn report_line(
    name: &String,
    a_steps: u32,
    a_solved: bool,
    b_steps: u32,
    b_solved: bool,
) -> (r: String)
    ensures
        r@ == line_text(name@, a_steps, a_solved, b_steps, b_solved),
{
    let mut out = name.clone();
    out.append(", ");
    append_decimal(&mut out, a_steps as u64);
    out.append(", ");
    append_solved(&mut out, a_solved);
    out.append(", ");
    append_decimal(&mut out, b_steps as u64);
    out.append(", ");
    append_solved(&mut out, b_solved);
    out
}

/// The line of the report for an example, which could be run unless `runs` is `None`.
pub open spec fn example_text(name: Seq<char>, runs: Option<(Run, Run)>) -> Seq<char> {
    match runs {
        None => name + ", error, , , "@,
        Some((a, b)) => line_text(name, a.steps, a.solution_count > 0, b.steps, b.solution_count > 0),
    }
}

impl Score {
    /// The score after one more example, which could be run unless `runs` is `None`.
    pub open spec fn scored(self, runs: Option<(Run, Run)>) -> Score {
        match runs {
            None => self,
            Some((a, b)) => self.with(a.solution_count > 0, b.solution_count > 0),
        }
    }

    /// Takes the two runs of one more example, or `None` where it could not be run. Returns its
    /// line of the report, and the steps to be compared where both runs solved it.
    pub fn example(&mut self, name: &String, runs: &Option<(Run, Run)>) -> (r: (
        String,
        Option<(u32, u32)>,
    ))
        requires
            old(self).first < u32::MAX,
            old(self).second < u32::MAX,
            old(self).both < u32::MAX,
        ensures
            r.0@ == example_text(name@, *runs),
            *final(self) == old(self).scored(*runs),
            r.1 == match *runs {
                None => None,
                Some((a, b)) => if a.solution_count > 0 && b.solution_count > 0 {
                    Some((at_least_one(a.steps), at_least_one(b.steps)))
                } else {
                    None
                },
            },
    {
        match runs {
            None => {
                let mut out = name.clone();
                out.append(", error, , , ");
                (out, None)
            },
            Some((a, b)) => {
                let line = report_line(
                    name,
                    a.steps,
                    a.solution_count > 0,
                    b.steps,
                    b.solution_count > 0,
                );
                if self.record(a.solution_count > 0, b.solution_count > 0) {
                    (line, Some(compared_steps(a.steps, b.steps)))
                } else {
                    (line, None)
                }
            },
        }
    }
}

/// The line of the report for how many of the examples one configuration solved.
pub fn solved_line(label: &String, solved: u32, total: usize) -> (r: String)
    ensures
        r@ == label@ + " solved: "@ + decimal(solved as nat) + "/"@ + decimal(total as nat),
{
    let mut out = label.clone();
    out.append(" solved: ");
    append_decimal(&mut out, solved as u64);
    out.append("/");
    append_decimal(&mut out, total as u64);
    out
}

} // verus!
