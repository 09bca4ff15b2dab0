//! The solutions that a search has found, and who may search.
use crate::data::{strings, Term, TermView};
use crate::ids::{Fault, Ids};
use crate::ir::{
    let_view, let_views, rule_view, rule_views, spine_view, term_view, term_views, var_names,
    IRLet, IRRule, IRSpine, IRTerm, IRTermView, IRVar,
};
use crate::memory::{Heap, Store};
use crate::readback::read_lambda;
use crate::shown::{lemma_let_views, lemma_rule_views, lemma_term_views};
use vstd::prelude::*;

verus! {

/// Whether two lists of texts are the same.
fn same_strings(a: &Vec<String>, b: &Vec<String>) -> (r: bool)
    ensures
        r == (strings(a@) == strings(b@)),
{
    if a.len() != b.len() {
        assert(strings(a@).len() != strings(b@).len());
        return false;
    }
    let mut i: usize = 0;
    while i < a.len()
        invariant
            i <= a@.len(),
            a@.len() == b@.len(),
            forall|j: int| 0 <= j < i ==> (#[trigger] a@[j])@ == b@[j]@,
        decreases a@.len() - i,
    {
        if a[i] != b[i] {
            assert(strings(a@)[i as int] != strings(b@)[i as int]);
            return false;
        }
        i = i + 1;
    }
    assert(strings(a@) =~= strings(b@));
    true
}

/// Whether two lists of variables are the same.
fn same_vars(a: &Vec<IRVar>, b: &Vec<IRVar>) -> (r: bool)
    ensures
        r == (var_names(a@) == var_names(b@)),
{
    if a.len() != b.len() {
        assert(var_names(a@).len() != var_names(b@).len());
        return false;
    }
    let mut i: usize = 0;
    while i < a.len()
        invariant
            i <= a@.len(),
            a@.len() == b@.len(),
            forall|j: int| 0 <= j < i ==> (#[trigger] a@[j]).name@ == b@[j].name@,
        decreases a@.len() - i,
    {
        if a[i].name != b[i].name {
            assert(var_names(a@)[i as int] != var_names(b@)[i as int]);
            return false;
        }
        i = i + 1;
    }
    assert(var_names(a@) =~= var_names(b@));
    true
}

/// Whether two spines are the same.
pub fn same_spine(a: &IRSpine, b: &IRSpine) -> (r: bool)
    ensures
        r == (spine_view(*a) == spine_view(*b)),
    decreases a, 0nat,
{
    assert(decreases_to!(*a => a.args@));
    a.head == b.head
        && same_terms(&a.args, &b.args)
        && same_strings(&a.premise_rules, &b.premise_rules)
}

/// Whether two terms are the same.
pub fn same_term(a: &IRTerm, b: &IRTerm) -> (r: bool)
    ensures
        r == (term_view(*a) == term_view(*b)),
    decreases a, 0nat,
{
    assert(decreases_to!(*a => a.lets@));
    same_vars(&a.params, &b.params)
        && same_lets(&a.lets, &b.lets)
        && same_spine(&a.spine, &b.spine)
        && same_strings(&a.goal_rules, &b.goal_rules)
}

/// Whether two let declarations are the same.
pub fn same_let(a: &IRLet, b: &IRLet) -> (r: bool)
    ensures
        r == (let_view(*a) == let_view(*b)),
    decreases a, 0nat,
{
    assert(decreases_to!(*a => a.rules@));
    a.var.name == b.var.name
        && same_rules(&a.rules, &b.rules)
}

/// Whether two rules are the same.
pub fn same_rule(a: &IRRule, b: &IRRule) -> (r: bool)
    ensures
        r == (rule_view(*a) == rule_view(*b)),
    decreases a, 0nat,
{
    same_spine(&a.lhs, &b.lhs)
        && same_spine(&a.rhs, &b.rhs)
        && same_strings(&a.attribution, &b.attribution)
        && a.is_redex == b.is_redex
}

/// Whether two lists of terms are the same.
fn same_terms(a: &Vec<IRTerm>, b: &Vec<IRTerm>) -> (r: bool)
    ensures
        r == (term_views(a@, a@.len()) == term_views(b@, b@.len())),
    decreases a@, a@.len() + 1,
{
    proof {
        lemma_term_views(a@, a@.len());
        lemma_term_views(b@, b@.len());
    }
    if a.len() != b.len() {
        return false;
    }
    let mut i: usize = 0;
    while i < a.len()
        invariant
            i <= a@.len(),
            a@.len() == b@.len(),
            forall|j: int| 0 <= j < i ==> term_view(#[trigger] a@[j]) == term_view(b@[j]),
        decreases a@.len() - i,
    {
        assert(decreases_to!(a@ => a@[i as int]));
        if !same_term(&a[i], &b[i]) {
            proof {
                lemma_term_views(a@, a@.len());
                lemma_term_views(b@, b@.len());
                assert(term_views(a@, a@.len())[i as int] != term_views(b@, b@.len())[i as int]);
            }
            return false;
        }
        i = i + 1;
    }
    assert(term_views(a@, a@.len()) =~= term_views(b@, b@.len())) by {
        assert forall|j: int| 0 <= j < a@.len() implies term_views(a@, a@.len())[j] == term_views(
            b@,
            b@.len(),
        )[j] by {
            assert(term_view(a@[j]) == term_view(b@[j]));
        }
    }
    true
}

/// Whether two lists of let declarations are the same.
fn same_lets(a: &Vec<IRLet>, b: &Vec<IRLet>) -> (r: bool)
    ensures
        r == (let_views(a@, a@.len()) == let_views(b@, b@.len())),
    decreases a@, a@.len() + 1,
{
    proof {
        lemma_let_views(a@, a@.len());
        lemma_let_views(b@, b@.len());
    }
    if a.len() != b.len() {
        return false;
    }
    let mut i: usize = 0;
    while i < a.len()
        invariant
            i <= a@.len(),
            a@.len() == b@.len(),
            forall|j: int| 0 <= j < i ==> let_view(#[trigger] a@[j]) == let_view(b@[j]),
        decreases a@.len() - i,
    {
        assert(decreases_to!(a@ => a@[i as int]));
        if !same_let(&a[i], &b[i]) {
            proof {
                lemma_let_views(a@, a@.len());
                lemma_let_views(b@, b@.len());
                assert(let_views(a@, a@.len())[i as int] != let_views(b@, b@.len())[i as int]);
            }
            return false;
        }
        i = i + 1;
    }
    assert(let_views(a@, a@.len()) =~= let_views(b@, b@.len())) by {
        assert forall|j: int| 0 <= j < a@.len() implies let_views(a@, a@.len())[j] == let_views(
            b@,
            b@.len(),
        )[j] by {
            assert(let_view(a@[j]) == let_view(b@[j]));
        }
    }
    true
}

/// Whether two lists of rules are the same.
fn same_rules(a: &Vec<IRRule>, b: &Vec<IRRule>) -> (r: bool)
    ensures
        r == (rule_views(a@, a@.len()) == rule_views(b@, b@.len())),
    decreases a@, a@.len() + 1,
{
    proof {
        lemma_rule_views(a@, a@.len());
        lemma_rule_views(b@, b@.len());
    }
    if a.len() != b.len() {
        return false;
    }
    let mut i: usize = 0;
    while i < a.len()
        invariant
            i <= a@.len(),
            a@.len() == b@.len(),
            forall|j: int| 0 <= j < i ==> rule_view(#[trigger] a@[j]) == rule_view(b@[j]),
        decreases a@.len() - i,
    {
        assert(decreases_to!(a@ => a@[i as int]));
        if !same_rule(&a[i], &b[i]) {
            proof {
                lemma_rule_views(a@, a@.len());
                lemma_rule_views(b@, b@.len());
                assert(rule_views(a@, a@.len())[i as int] != rule_views(b@, b@.len())[i as int]);
            }
            return false;
        }
        i = i + 1;
    }
    assert(rule_views(a@, a@.len()) =~= rule_views(b@, b@.len())) by {
        assert forall|j: int| 0 <= j < a@.len() implies rule_views(a@, a@.len())[j] == rule_views(
            b@,
            b@.len(),
        )[j] by {
            assert(rule_view(a@[j]) == rule_view(b@[j]));
        }
    }
    true
}

/// The term of a metavariable that has been found, as a written term. Also gives the next
/// identifier.
pub open spec fn solution(h: Heap, t: TermView, fuel: nat, next: u64) -> Result<
    (IRTermView, u64),
    Fault,
> {
    if t.base >= h.metas.len() || h.metas[t.base as int].gamma.len() == 0 {
        Err(Fault::Malformed)
    } else {
        match read_lambda(
            h,
            t,
            h.metas[t.base as int].gamma[0].bindings,
            false,
            false,
            fuel,
            next,
        ) {
            Err(f) => Err(f),
            Ok((_, v, n)) => Ok((v, n)),
        }
    }
}

/// Reads a term that has been found.
pub fn read_solution(store: &mut Store, term: &Term, fuel: usize, ids: &mut Ids) -> (r: Result<
    IRTerm,
    Fault,
>)
    ensures
        solution(old(store)@, term@, fuel as nat, old(ids).next) == match r {
            Ok(t) => Ok::<(IRTermView, u64), Fault>((term_view(t), final(ids).next)),
            Err(f) => Err(f),
        },
        final(store)@ == old(store)@,
{
    if !store.has_meta(term.base) || !store.meta(term.base).gamma.longer_than(0) {
        return Err(Fault::Malformed);
    }
    let bindings = store.meta(term.base).gamma.root().bindings.clone();
    IRTerm::read::<false>(store, term, &bindings, false, fuel, ids)
}

/// What is kept of the solutions `vs` when `v` is found: it is added if there are fewer than
/// `count` and it is not among them.
pub open spec fn kept(vs: Seq<IRTermView>, v: IRTermView, count: nat) -> Seq<IRTermView> {
    if vs.len() < count && !vs.contains(v) {
        vs.push(v)
    } else {
        vs
    }
}

/// What is kept when `found` are found one after the other.
pub open spec fn gathered(found: Seq<IRTermView>, count: nat) -> Seq<IRTermView>
    decreases found.len(),
{
    if found.len() == 0 {
        Seq::empty()
    } else {
        kept(gathered(found.drop_last(), count), found.last(), count)
    }
}

/// Solutions that have been found, up to a number of them.
#[derive(Debug)]
pub struct Solutions {
    pub terms: Vec<IRTerm>,
    pub count: usize,
}

impl Solutions {
    pub open spec fn view(&self) -> Seq<IRTermView> {
        term_views(self.terms@, self.terms@.len())
    }

    /// No solutions so far, of at most `count`.
    pub fn new(count: usize) -> (r: Solutions)
        ensures
            r@ == gathered(Seq::empty(), count as nat),
            r.count == count,
    {
        Solutions { terms: Vec::new(), count }
    }

    /// Takes a solution, unless it is known or there are enough. Returns whether there are enough.
    pub fn offer(&mut self, term: IRTerm) -> (r: bool)
        ensures
            final(self)@ == kept(old(self)@, term_view(term), old(self).count as nat),
            final(self).count == old(self).count,
            r == (final(self)@.len() >= old(self).count),
    {
        let ghost before = self.terms@;
        proof {
            lemma_term_views(before, before.len());
        }
        let mut known = false;
        let mut i: usize = 0;
        while i < self.terms.len()
            invariant
                i <= self.terms@.len(),
                self.terms@ == before,
                self.count == old(self).count,
                known == exists|j: int|
                    0 <= j < i && term_view(#[trigger] before[j]) == term_view(term),
            decreases self.terms@.len() - i,
        {
            if same_term(&self.terms[i], &term) {
                assert(term_view(before[i as int]) == term_view(term));
                known = true;
            }
            i = i + 1;
        }
        proof {
            let views = term_views(before, before.len());
            lemma_term_views(before, before.len());
            if known {
                let j = choose|j: int|
                    0 <= j < before.len() && term_view(#[trigger] before[j]) == term_view(term);
                assert(views[j] == term_view(term));
            } else if views.contains(term_view(term)) {
                let j = choose|j: int| 0 <= j < views.len() && views[j] == term_view(term);
                assert(term_view(before[j]) == term_view(term));
            }
        }
        if self.terms.len() < self.count && !known {
            proof {
                let after = before.push(term);
                lemma_term_views(after, after.len());
                assert(term_views(after, after.len()) =~= term_views(before, before.len()).push(
                    term_view(term),
                ));
            }
            self.terms.push(term);
        }
        proof {
            lemma_term_views(self.terms@, self.terms@.len());
        }
        self.terms.len() >= self.count
    }
}

/// The solutions that are kept are all different, there are no more of them than asked for, each
/// of them has been found, and as long as there are fewer than asked for none has been passed
/// over.
pub proof fn law_solutions_kept(found: Seq<IRTermView>, count: nat)
    ensures
        gathered(found, count).no_duplicates(),
        gathered(found, count).len() <= count,
        forall|v: IRTermView| #[trigger] gathered(found, count).contains(v) ==> found.contains(v),
        gathered(found, count).len() < count ==> forall|v: IRTermView| #[trigger]
            found.contains(v) ==> gathered(found, count).contains(v),
    decreases found.len(),
{
    if found.len() > 0 {
        let rest = found.drop_last();
        let before = gathered(rest, count);
        let after = gathered(found, count);
        law_solutions_kept(rest, count);
        assert forall|v: IRTermView| #[trigger] after.contains(v) implies found.contains(v) by {
            let i = choose|i: int| 0 <= i < after.len() && after[i] == v;
            if i < before.len() {
                assert(before.contains(before[i]));
                let j = choose|j: int| 0 <= j < rest.len() && rest[j] == v;
                assert(found[j] == v);
            } else {
                assert(found[found.len() - 1] == v);
            }
        }
        if after.len() < count {
            assert forall|v: IRTermView| #[trigger] found.contains(v) implies after.contains(
                v,
            ) by {
                let j = choose|j: int| 0 <= j < found.len() && found[j] == v;
                if j < rest.len() {
                    assert(rest[j] == v);
                    assert(rest.contains(v));
                    let i = choose|i: int| 0 <= i < before.len() && before[i] == v;
                    assert(after[i] == v);
                } else if !before.contains(v) {
                    assert(after[before.len() as int] == v);
                }
            }
        }
    }
}

/// Whether someone holds the right to search.
#[derive(Debug)]
pub struct Lock {
    pub locked: bool,
}

impl Lock {
    pub fn new() -> (r: Lock)
        ensures
            !r.locked,
    {
        Lock { locked: false }
    }

    /// Takes the lock if nobody holds it, and returns whether it was taken: if not, it has to be
    /// waited for.
    pub fn lock(&mut self) -> (r: bool)
        ensures
            r == !old(self).locked,
            final(self).locked,
    {
        if self.locked {
            false
        } else {
            self.locked = true;
            true
        }
    }

    /// Gives the lock back.
    pub fn unlock(&mut self)
        ensures
            !final(self).locked,
    {
        self.locked = false;
    }
}

} // verus!
