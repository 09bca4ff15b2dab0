//! Reduction of terms to weak head normal form.
use crate::data::{
    strings, Entry, EntryView, Head, Linked, MetaId, Node, NodeView, Rule, RuleView, Subst,
    SubstView, SymbolView, Term, TermView, Var, WhnfView, WHNF,
};
use crate::es::{appended, links, subst_entry, var_at, vars_entry};
use crate::ids::{next_u64, Fault, Ids, STRIDE};
use crate::index::{DeBruijn, Index};
use crate::memory::{Heap, Store};
use std::rc::Rc;
use vstd::prelude::*;

verus! {

/// Told of each rule that a reduction applies.
pub trait Attribution {
    /// What has been noted so far.
    spec fn noted(&self) -> Seq<Seq<char>>;

    /// Whether anything is noted at all.
    spec fn keeps() -> bool;

    fn attribute(&mut self, rule: &Rule)
        ensures
            final(self).noted() == if Self::keeps() {
                old(self).noted() + rule@.attribution
            } else {
                old(self).noted()
            },
    ;
}

impl Attribution for () {
    open spec fn noted(&self) -> Seq<Seq<char>> {
        Seq::empty()
    }

    open spec fn keeps() -> bool {
        false
    }

    fn attribute(&mut self, rule: &Rule) {
    }
}

impl Attribution for Vec<String> {
    open spec fn noted(&self) -> Seq<Seq<char>> {
        strings(self@)
    }

    open spec fn keeps() -> bool {
        true
    }

    fn attribute(&mut self, rule: &Rule) {
        let ghost before = strings(self@);
        let mut i: usize = 0;
        assert(before =~= before + rule@.attribution.take(0));
        while i < rule.attribution.len()
            invariant
                i <= rule.attribution@.len(),
                strings(self@) == before + rule@.attribution.take(i as int),
            decreases rule.attribution@.len() - i,
        {
            let s: String = rule.attribution[i].clone();
            let ghost prev = self@;
            self.push(s);
            proof {
                assert(strings(self@) =~= strings(prev).push(s@));
                assert(rule@.attribution.take(i + 1) =~= rule@.attribution.take(i as int).push(
                    rule@.attribution[i as int],
                ));
            }
            i = i + 1;
        }
        assert(rule@.attribution.take(i as int) =~= rule@.attribution);
    }
}

/// What a reduction changes beside its result: the next identifier, the number of links made,
/// and the rules noted.
#[verifier::ext_equal]
pub struct Effects {
    pub next: u64,
    pub links: nat,
    pub noted: Seq<Seq<char>>,
}

/// The effects so far.
pub open spec fn effects<C: Attribution>(ids: Ids, owned: Seq<Rc<Linked>>, c: C) -> Effects {
    Effects { next: ids.next, links: owned.len(), noted: c.noted() }
}

impl Effects {
    /// Whether `n` more identifiers can be drawn.
    pub open spec fn can_draw(self, n: nat) -> bool {
        self.next + n * STRIDE <= u64::MAX
    }

    /// The effects after `n` more identifiers and `links` more links.
    pub open spec fn plus(self, n: nat, links: nat) -> Effects {
        Effects { next: (self.next + n * STRIDE) as u64, links: self.links + links, ..self }
    }

    /// The effects after applying `rule`.
    pub open spec fn noting(self, keeps: bool, rule: RuleView) -> Effects {
        if keeps {
            Effects { noted: self.noted + rule.attribution, ..self }
        } else {
            self
        }
    }
}

/// A rule that still may match, the number of elements of its pattern that have been met, and
/// the replacement under what they have matched.
pub struct Matcher<'a> {
    pub rule: &'a Rule,
    pub position: usize,
    pub replacement: Term,
}

/// The view of a `Matcher`.
#[verifier::ext_equal]
pub struct MatcherView {
    pub rule: RuleView,
    pub position: nat,
    pub replacement: TermView,
}

impl<'a> Matcher<'a> {
    pub open spec fn view(&self) -> MatcherView {
        MatcherView {
            rule: self.rule.view(),
            position: self.position as nat,
            replacement: self.replacement@,
        }
    }
}

/// The views of a list of matchers.
pub open spec fn matcher_views<'a>(v: Seq<Matcher<'a>>) -> Seq<MatcherView> {
    v.map_values(|m: Matcher<'a>| m.view())
}

impl MatcherView {
    /// Whether the pattern has an element that has not been met.
    pub open spec fn more(self) -> bool {
        self.position < self.rule.pattern.len()
    }

    /// The next element of the pattern.
    pub open spec fn front(self) -> Option<SymbolView> {
        self.rule.pattern[self.position as int]
    }

    /// This matcher with the next element met.
    pub open spec fn advanced(self) -> MatcherView {
        MatcherView { position: self.position + 1, ..self }
    }

    /// This matcher with `symbol` met at the head of `t`: the replacement refers to the
    /// arguments of `t` by the bindings of the symbol.
    pub open spec fn bound(self, h: Heap, t: TermView, symbol: SymbolView, next: u64) -> MatcherView {
        let subst = SubstView { args: h.metas[t.base as int].assignment->0.args, es: t.es };
        let node = NodeView { entry: subst_entry(subst, next), bindings: symbol.bindings };
        MatcherView {
            replacement: TermView {
                es: appended(self.replacement.es, node),
                ..self.replacement
            },
            ..self.advanced()
        }
    }
}

/// What matching came to: a rule that matched, or the matchers that are left, and the metavariable
/// that matching is stuck on.
pub enum MatchView {
    Found { term: TermView, rule: RuleView, stuck: Option<MetaId> },
    Open { patterns: Seq<MatcherView>, stuck: Option<MetaId> },
}

/// What offering a symbol to the matchers came to.
pub enum OfferView {
    Found { term: TermView, rule: RuleView },
    Open {
        patterns: Seq<MatcherView>,
        recursive: Seq<MatcherView>,
        ordering: Option<Seq<usize>>,
    },
}

/// Term `i` of the substitution, using `entry` for the local variables.
pub open spec fn substituted(h: Heap, s: SubstView, i: int, entry: EntryView) -> TermView {
    let node = NodeView { entry, bindings: h.metas[s.args[i] as int].bindings };
    TermView { base: s.args[i], es: appended(s.es, node) }
}

/// The arguments of the assignment of `m`.
pub open spec fn args_of(h: Heap, m: MetaId) -> Seq<MetaId> {
    h.metas[m as int].assignment->0.args
}

/// Whether `t` is assigned and has an argument `i`.
pub open spec fn has_arg(h: Heap, t: TermView, i: int) -> bool {
    h.assigned(t.base) && 0 <= i < args_of(h, t.base).len() && args_of(h, t.base)[i]
        < h.metas.len()
}

/// The `i`th argument of `t`, using `entry` for the local variables.
pub open spec fn argument(h: Heap, t: TermView, i: int, entry: EntryView) -> TermView {
    substituted(h, SubstView { args: args_of(h, t.base), es: t.es }, i, entry)
}

/// The bindings of the `i`th argument of `t`.
pub open spec fn arg_bindings(h: Heap, t: TermView, i: int) -> crate::index::Slots<usize> {
    h.metas[args_of(h, t.base)[i] as int].bindings
}

/// The matchers that go on when anything is to be matched by a metavariable: those whose next
/// element stands for anything.
pub open spec fn survivors(patterns: Seq<MatcherView>) -> Seq<MatcherView>
    decreases patterns.len(),
{
    if patterns.len() == 0 {
        Seq::empty()
    } else {
        let rest = survivors(patterns.drop_last());
        if patterns.last().front() is None {
            rest.push(patterns.last().advanced())
        } else {
            rest
        }
    }
}

/// Offers the variable `var` at the head of `t` to the first `i` matchers, from the last to
/// the first. A matcher whose next element stands for anything stays; one whose next element
/// is the symbol goes on below it; any other is out. The first to be complete is found.
pub open spec fn offer(
    h: Heap,
    t: TermView,
    var: Var,
    patterns: Seq<MatcherView>,
    recursive: Seq<MatcherView>,
    ordering: Option<Seq<usize>>,
    i: nat,
    e: Effects,
) -> Result<(OfferView, Effects), Fault>
    decreases i,
{
    if i == 0 {
        Ok((OfferView::Open { patterns, recursive, ordering }, e))
    } else {
        let k = i - 1;
        let m = patterns[k];
        if !m.more() {
            Err(Fault::Malformed)
        } else {
            match m.front() {
                None => offer(
                    h,
                    t,
                    var,
                    patterns.update(k, m.advanced()),
                    recursive,
                    ordering,
                    k as nat,
                    e,
                ),
                Some(symbol) => if symbol.bind == var.bind {
                    if !e.can_draw(2) {
                        Err(Fault::Exhausted)
                    } else {
                        let n = m.bound(h, t, symbol, e.next);
                        let e2 = e.plus(2, links(symbol.bindings));
                        if !n.more() {
                            Ok((OfferView::Found { term: n.replacement, rule: n.rule }, e2))
                        } else {
                            offer(
                                h,
                                t,
                                var,
                                patterns.remove(k),
                                recursive.push(n),
                                Some(symbol.children),
                                k as nat,
                                e2,
                            )
                        }
                    }
                } else {
                    offer(h, t, var, patterns.remove(k), recursive, ordering, k as nat, e)
                },
            }
        }
    }
}

/// Matches the arguments of `t` that `children` lists, from the `k`th on, against the matchers,
/// for as long as there are any.
pub open spec fn visit(
    h: Heap,
    t: TermView,
    children: Seq<usize>,
    k: nat,
    patterns: Seq<MatcherView>,
    keeps: bool,
    can_stuck: bool,
    stuck: Option<MetaId>,
    fuel: nat,
    e: Effects,
) -> Result<(MatchView, Effects), Fault>
    decreases fuel + 1, 0nat, children.len() - k,
{
    if k >= children.len() {
        Ok((MatchView::Open { patterns, stuck }, e))
    } else if !e.can_draw(2) {
        Err(Fault::Exhausted)
    } else {
        let i = children[k as int] as int;
        let entry = vars_entry(e.next, (e.next + STRIDE) as u64);
        if !has_arg(h, t, i) {
            Err(Fault::Malformed)
        } else {
            let e2 = e.plus(2, links(arg_bindings(h, t, i)));
            match whnf(h, argument(h, t, i, entry), true, keeps, fuel, e2) {
                Err(f) => Err(f),
                Ok((w, e3)) => match pattern_match(
                    h,
                    w,
                    patterns,
                    keeps,
                    can_stuck,
                    stuck,
                    fuel,
                    e3,
                ) {
                    Err(f) => Err(f),
                    Ok((MatchView::Found { term, rule, stuck: s }, e4)) => Ok(
                        (MatchView::Found { term, rule, stuck: s }, e4),
                    ),
                    Ok((MatchView::Open { patterns: left, stuck: s }, e4)) => if left.len() == 0 {
                        Ok((MatchView::Open { patterns: left, stuck: s }, e4))
                    } else {
                        visit(h, t, children, k + 1, left, keeps, can_stuck, s, fuel, e4)
                    },
                },
            }
        }
    }
}

/// Matches `w` against the next elements of the matchers, all at once.
pub open spec fn pattern_match(
    h: Heap,
    w: WhnfView,
    patterns: Seq<MatcherView>,
    keeps: bool,
    can_stuck: bool,
    stuck: Option<MetaId>,
    fuel: nat,
    e: Effects,
) -> Result<(MatchView, Effects), Fault>
    decreases fuel, 1nat, 0nat,
{
    if fuel == 0 {
        Err(Fault::Overflow)
    } else {
        match w.head {
            Head::Meta(m) => if forall|k: int|
                0 <= k < patterns.len() ==> (#[trigger] patterns[k]).more() {
                Ok(
                    (
                        MatchView::Open {
                            patterns: survivors(patterns),
                            stuck: if can_stuck {
                                Some(m)
                            } else {
                                stuck
                            },
                        },
                        e,
                    ),
                )
            } else {
                Err(Fault::Malformed)
            },
            Head::Var(var) => if !h.assigned(w.term.base) {
                Err(Fault::Malformed)
            } else {
                match offer(h, w.term, var, patterns, Seq::empty(), None, patterns.len(), e) {
                    Err(f) => Err(f),
                    Ok((OfferView::Found { term, rule }, e2)) => Ok(
                        (MatchView::Found { term, rule, stuck }, e2),
                    ),
                    Ok((OfferView::Open { patterns: left, recursive, ordering }, e2)) => {
                        let children = match ordering {
                            None => Seq::empty(),
                            Some(c) => c,
                        };
                        match visit(
                            h,
                            w.term,
                            children,
                            0,
                            recursive,
                            keeps,
                            can_stuck,
                            stuck,
                            (fuel - 1) as nat,
                            e2,
                        ) {
                            Err(f) => Err(f),
                            Ok((MatchView::Found { term, rule, stuck: s }, e3)) => Ok(
                                (MatchView::Found { term, rule, stuck: s }, e3),
                            ),
                            Ok((MatchView::Open { patterns: more, stuck: s }, e3)) => Ok(
                                (MatchView::Open { patterns: left + more, stuck: s }, e3),
                            ),
                        }
                    },
                }
            },
        }
    }
}

/// The matchers of all rules of a variable, before anything is matched.
pub open spec fn initial(rules: Seq<RuleView>, es: Seq<NodeView>) -> Seq<MatcherView> {
    rules.map_values(
        |rule: RuleView|
            MatcherView { rule, position: 0, replacement: TermView { base: rule.replacement, es } },
    )
}

/// The substitution that `index` of `node` stands for, where it stands for one: the index is a
/// parameter, and the node substitutes.
pub open spec fn replaces(node: NodeView, index: Index) -> Option<(SubstView, int)> {
    match (index, node.entry.subst) {
        (Index::Param(i), Some(s)) => Some((s, i as int)),
        _ => None,
    }
}

/// The weak head normal form of `t`.
///
/// An unassigned metavariable is stuck. A head that is substituted is replaced by the term for
/// it, applied to the arguments. A variable with rules is replaced where a rule matches (if
/// `rules`), and is stuck where a metavariable is in the way. Any other variable is a normal
/// form.
pub open spec fn whnf(
    h: Heap,
    t: TermView,
    rules: bool,
    keeps: bool,
    fuel: nat,
    e: Effects,
) -> Result<(WhnfView, Effects), Fault>
    decreases fuel, 0nat, 0nat,
{
    if fuel == 0 {
        Err(Fault::Overflow)
    } else if t.base >= h.metas.len() {
        Err(Fault::Malformed)
    } else {
        match h.metas[t.base as int].assignment {
            None => Ok((WhnfView { term: t, head: Head::Meta(t.base) }, e)),
            Some(a) => if a.head.0.0 >= t.es.len() {
                Err(Fault::Malformed)
            } else {
                let node = t.es[a.head.0.0 as int];
                match replaces(node, a.head.1) {
                    Some((s, i)) => if i >= s.args.len() || s.args[i] >= h.metas.len() {
                        Err(Fault::Malformed)
                    } else if !e.can_draw(2) {
                        Err(Fault::Exhausted)
                    } else {
                        let entry = subst_entry(SubstView { args: a.args, es: t.es }, e.next);
                        whnf(
                            h,
                            substituted(h, s, i, entry),
                            rules,
                            keeps,
                            (fuel - 1) as nat,
                            e.plus(2, links(h.metas[s.args[i] as int].bindings)),
                        )
                    },
                    None => if !node.bindings.has(a.head.1) || node.bindings.at(a.head.1)
                        >= h.binds.len() {
                        Err(Fault::Malformed)
                    } else {
                        let var = var_at(node, a.head.1);
                        let bind = h.binds[var.bind as int];
                        let done = WhnfView { term: t, head: Head::Var(var) };
                        if rules && bind.rules.len() > 0 {
                            match pattern_match(
                                h,
                                done,
                                initial(bind.rules, t.es.skip(a.head.0.0 as int)),
                                keeps,
                                h.metas[t.base as int].from_original_problem,
                                None,
                                (fuel - 1) as nat,
                                e,
                            ) {
                                Err(f) => Err(f),
                                Ok((MatchView::Found { term, rule, .. }, e2)) => whnf(
                                    h,
                                    term,
                                    rules,
                                    keeps,
                                    (fuel - 1) as nat,
                                    e2.noting(keeps, rule),
                                ),
                                Ok((MatchView::Open { patterns, stuck: Some(m) }, e2)) => Ok(
                                    (WhnfView { term: t, head: Head::Meta(m) }, e2),
                                ),
                                Ok((MatchView::Open { patterns, stuck: None }, e2)) => Ok(
                                    (done, e2),
                                ),
                            }
                        } else {
                            Ok((done, e))
                        }
                    },
                }
            },
        }
    }
}

/// Whether the result `r` with effects `e` is the `expected` one.
pub open spec fn whnf_agrees(
    r: Result<WHNF, Fault>,
    e: Effects,
    expected: Result<(WhnfView, Effects), Fault>,
) -> bool {
    match r {
        Ok(w) => expected == Ok::<(WhnfView, Effects), Fault>((w@, e)),
        Err(f) => expected == Err::<(WhnfView, Effects), Fault>(f),
    }
}

/// What matching came to.
pub enum Matched<'a> {
    Found(Term, &'a Rule),
    Open,
}

/// Whether the result `r` with effects `e` is the `expected` one.
pub open spec fn match_agrees<'a>(
    r: Result<Matched<'a>, Fault>,
    patterns: Seq<MatcherView>,
    stuck: Option<MetaId>,
    e: Effects,
    expected: Result<(MatchView, Effects), Fault>,
) -> bool {
    match r {
        Ok(Matched::Found(term, rule)) => expected == Ok::<(MatchView, Effects), Fault>(
            (MatchView::Found { term: term@, rule: rule@, stuck }, e),
        ),
        Ok(Matched::Open) => expected == Ok::<(MatchView, Effects), Fault>(
            (MatchView::Open { patterns, stuck }, e),
        ),
        Err(f) => expected == Err::<(MatchView, Effects), Fault>(f),
    }
}

impl Subst {
    /// Obtain `Term` `i` from the substitution, using `entry` for the local variables.
    pub fn get(
        &self,
        store: &Store,
        i: usize,
        entry: Entry,
        owned_linked: &mut Vec<Rc<Linked>>,
    ) -> (r: Term)
        requires
            i < self@.args.len(),
            self@.args[i as int] < store@.metas.len(),
        ensures
            r@ == substituted(store@, self@, i as int, entry@),
            old(owned_linked)@.is_prefix_of(final(owned_linked)@),
            final(owned_linked)@.len() == old(owned_linked)@.len() + links(
                store@.metas[self@.args[i as int] as int].bindings,
            ),
    {
        let base: MetaId = self.0[i];
        let bindings = store.meta(base).bindings.clone();
        Term { es: self.1.append(Node { entry, bindings }, owned_linked), base }
    }
}

impl Term {
    /// Get the `i`th argument, applied with `entry`.
    pub fn arg(
        &self,
        store: &Store,
        i: usize,
        entry: Entry,
        owned_linked: &mut Vec<Rc<Linked>>,
    ) -> (r: Term)
        requires
            has_arg(store@, self@, i as int),
        ensures
            r@ == argument(store@, self@, i as int, entry@),
            old(owned_linked)@.is_prefix_of(final(owned_linked)@),
            final(owned_linked)@.len() == old(owned_linked)@.len() + links(
                arg_bindings(store@, self@, i as int),
            ),
    {
        let base: MetaId = store.meta(self.base).assignment.as_ref().unwrap().args[i];
        let bindings = store.meta(base).bindings.clone();
        Term { es: self.es.append(Node { entry, bindings }, owned_linked), base }
    }

    /// Whether there is an argument `i`.
    pub fn can_arg(&self, store: &Store, i: usize) -> (r: bool)
        ensures
            r == has_arg(store@, self@, i as int),
    {
        if !store.has_meta(self.base) {
            return false;
        }
        match &store.meta(self.base).assignment {
            None => false,
            Some(a) => i < a.args.len() && store.has_meta(a.args[i]),
        }
    }

    /// Computes the weak head normal form, nesting at most `fuel` deep.
    pub fn whnf<const RULES: bool, C: Attribution>(
        &self,
        store: &Store,
        fuel: usize,
        ids: &mut Ids,
        owned_linked: &mut Vec<Rc<Linked>>,
        attribution: &mut C,
    ) -> (r: Result<WHNF, Fault>)
        ensures
            whnf_agrees(
                r,
                effects(*final(ids), final(owned_linked)@, *final(attribution)),
                whnf(
                    store@,
                    self@,
                    RULES,
                    C::keeps(),
                    fuel as nat,
                    effects(*old(ids), old(owned_linked)@, *old(attribution)),
                ),
            ),
            old(owned_linked)@.is_prefix_of(final(owned_linked)@),
        decreases fuel,
    {
        if fuel == 0 {
            return Err(Fault::Overflow);
        }
        if !store.has_meta(self.base) {
            return Err(Fault::Malformed);
        }
        let meta = store.meta(self.base);
        let assn = match &meta.assignment {
            None => {
                return Ok(WHNF(self.clone(), Head::Meta(self.base)));
            },
            Some(a) => a,
        };
        let db: DeBruijn = assn.head.0;
        if !self.es.longer_than(db.0) {
            return Err(Fault::Malformed);
        }
        let es = self.es.sub_es(db);
        assert(es@[0] == self.es@[db.0 as int]);
        // If there is a term at the head, recursively reduce it. Otherwise, the variable is the head symbol.
        if let Index::Param(i) = assn.head.1 {
            if let Some(subst) = &es.root().entry.subst {
                // If there is a substitution, and the index is a parameter, return the associated term in the substitution.
                if i >= subst.0.len() || !store.has_meta(subst.0[i]) {
                    return Err(Fault::Malformed);
                }
                if ids.next > u64::MAX - 2 * STRIDE {
                    return Err(Fault::Exhausted);
                }
                let entry = Entry::subst(Subst(assn.args.clone(), self.es.clone()), ids);
                let term = subst.get(store, i, entry, owned_linked);
                return term.whnf::<RULES, C>(store, fuel - 1, ids, owned_linked, attribution);
            }
        }
        if !es.root().bindings.contains(assn.head.1) {
            return Err(Fault::Malformed);
        }
        let var: Var = es.get_var(assn.head.1);
        if !store.has_bind(var.bind) {
            return Err(Fault::Malformed);
        }
        let bind = store.bind(var.bind);
        let done = WHNF(self.clone(), Head::Var(var));
        if RULES && bind.rules.len() > 0 {
            let mut matchers: Vec<Matcher> = Vec::new();
            let mut k: usize = 0;
            let ghost all = initial(bind@.rules, es@);
            while k < bind.rules.len()
                invariant
                    k <= bind.rules@.len(),
                    all == initial(bind@.rules, es@),
                    matcher_views(matchers@) == all.take(k as int),
                decreases bind.rules@.len() - k,
            {
                let rule: &Rule = &bind.rules[k];
                let m = Matcher {
                    rule,
                    position: 0,
                    replacement: Term { base: rule.replacement, es: es.clone() },
                };
                let ghost prev = matchers@;
                matchers.push(m);
                proof {
                    assert(m@ == all[k as int]);
                    assert(matcher_views(matchers@) =~= matcher_views(prev).push(m@));
                    assert(all.take(k + 1) =~= all.take(k as int).push(all[k as int]));
                }
                k = k + 1;
            }
            assert(all.take(k as int) =~= all);
            let mut stuck: Option<MetaId> = None;
            let matched = done.pattern_match(
                store,
                &mut matchers,
                fuel - 1,
                ids,
                owned_linked,
                attribution,
                meta.from_original_problem,
                &mut stuck,
            );
            match matched {
                Err(f) => {
                    return Err(f);
                },
                Ok(Matched::Found(term, rule)) => {
                    attribution.attribute(rule);
                    return term.whnf::<RULES, C>(store, fuel - 1, ids, owned_linked, attribution);
                },
                Ok(Matched::Open) => {
                    if let Some(m) = stuck {
                        return Ok(WHNF(self.clone(), Head::Meta(m)));
                    }
                },
            }
        }
        Ok(done)
    }
}

impl WHNF {
    /// Matches against the next elements of `patterns`, which keeps the matchers that are left.
    fn pattern_match<'a, C: Attribution>(
        &self,
        store: &'a Store,
        patterns: &mut Vec<Matcher<'a>>,
        fuel: usize,
        ids: &mut Ids,
        owned_linked: &mut Vec<Rc<Linked>>,
        attribution: &mut C,
        can_stuck: bool,
        stuck: &mut Option<MetaId>,
    ) -> (r: Result<Matched<'a>, Fault>)
        ensures
            match_agrees(
                r,
                matcher_views(final(patterns)@),
                *final(stuck),
                effects(*final(ids), final(owned_linked)@, *final(attribution)),
                pattern_match(
                    store@,
                    self@,
                    matcher_views(old(patterns)@),
                    C::keeps(),
                    can_stuck,
                    *old(stuck),
                    fuel as nat,
                    effects(*old(ids), old(owned_linked)@, *old(attribution)),
                ),
            ),
            old(owned_linked)@.is_prefix_of(final(owned_linked)@),
        decreases fuel,
    {
        if fuel == 0 {
            return Err(Fault::Overflow);
        }
        match self.1 {
            Head::Meta(meta) => {
                match survive(patterns) {
                    Err(f) => {
                        return Err(f);
                    },
                    Ok(left) => {
                        *patterns = left;
                    },
                }
                if can_stuck {
                    *stuck = Some(meta);
                }
                Ok(Matched::Open)
            },
            Head::Var(var) => {
                if !store.has_meta(self.0.base) {
                    return Err(Fault::Malformed);
                }
                let args: &Rc<Vec<MetaId>> = match &store.meta(self.0.base).assignment {
                    None => {
                        return Err(Fault::Malformed);
                    },
                    Some(a) => &a.args,
                };
                let ghost e0 = effects(*ids, owned_linked@, *attribution);
                let ghost all = matcher_views(patterns@);
                let ghost goal = offer(store@, self.0@, var, all, Seq::empty(), None, all.len(), e0);
                let mut recursive: Vec<Matcher<'a>> = Vec::new();
                let mut ordering: Option<&'a Vec<usize>> = None;
                let mut i: usize = patterns.len();
                assert(matcher_views(recursive@) =~= Seq::empty());
                while i > 0
                    invariant
                        i <= patterns@.len(),
                        store@.assigned(self.0.base),
                        args@ == args_of(store@, self.0.base),
                        goal == offer(
                            store@,
                            self.0@,
                            var,
                            matcher_views(patterns@),
                            matcher_views(recursive@),
                            ordering_view(ordering),
                            i as nat,
                            effects(*ids, owned_linked@, *attribution),
                        ),
                        e0 == effects(*old(ids), old(owned_linked)@, *old(attribution)),
                        goal == offer(
                            store@,
                            self.0@,
                            var,
                            matcher_views(old(patterns)@),
                            Seq::empty(),
                            None,
                            matcher_views(old(patterns)@).len(),
                            e0,
                        ),
                        fuel > 0,
                        self.1 == Head::Var(var),
                        *stuck == *old(stuck),
                        old(owned_linked)@.is_prefix_of(owned_linked@),
                    decreases i,
                {
                    i = i - 1;
                    let ghost before = patterns@;
                    let rule: &'a Rule = patterns[i].rule;
                    let position: usize = patterns[i].position;
                    assert(matcher_views(before)[i as int] == before[i as int]@);
                    if position >= rule.pattern.len() {
                        return Err(Fault::Malformed);
                    }
                    assert(rule@.pattern[position as int] == crate::data::symbol_view(
                        rule.pattern@[position as int],
                    ));
                    match &rule.pattern[position] {
                        None => {
                            patterns[i].position = position + 1;
                            assert(matcher_views(patterns@) =~= matcher_views(before).update(
                                i as int,
                                before[i as int]@.advanced(),
                            ));
                        },
                        Some(symbol) => {
                            let mut matcher = patterns.remove(i);
                            assert(matcher_views(patterns@) =~= matcher_views(before).remove(
                                i as int,
                            ));
                            if symbol.bind == var.bind {
                                if ids.next > u64::MAX - 2 * STRIDE {
                                    return Err(Fault::Exhausted);
                                }
                                ordering = Some(&symbol.children);
                                let entry = Entry::subst(
                                    Subst(args.clone(), self.0.es.clone()),
                                    ids,
                                );
                                let es = matcher.replacement.es.append(
                                    Node { entry, bindings: symbol.bindings.clone() },
                                    owned_linked,
                                );
                                matcher.replacement.es = es;
                                matcher.position = position + 1;
                                if matcher.position == rule.pattern.len() {
                                    return Ok(Matched::Found(matcher.replacement, rule));
                                }
                                let ghost prev = recursive@;
                                recursive.push(matcher);
                                assert(matcher_views(recursive@) =~= matcher_views(prev).push(
                                    matcher@,
                                ));
                            }
                        },
                    }
                }
                let ghost left = matcher_views(patterns@);
                let ghost e1 = effects(*ids, owned_linked@, *attribution);
                let ghost children = match ordering {
                    None => Seq::empty(),
                    Some(c) => c@,
                };
                let ghost rest = visit(
                    store@,
                    self.0@,
                    children,
                    0,
                    matcher_views(recursive@),
                    C::keeps(),
                    can_stuck,
                    *stuck,
                    (fuel - 1) as nat,
                    e1,
                );
                if let Some(order) = ordering {
                    let mut k: usize = 0;
                    let mut go: bool = true;
                    while go && k < order.len()
                        invariant
                            k <= order@.len(),
                            fuel > 0,
                            children == order@,
                            left == matcher_views(patterns@),
                            go ==> rest == visit(
                                store@,
                                self.0@,
                                children,
                                k as nat,
                                matcher_views(recursive@),
                                C::keeps(),
                                can_stuck,
                                *stuck,
                                (fuel - 1) as nat,
                                effects(*ids, owned_linked@, *attribution),
                            ),
                            !go ==> rest == Ok::<(MatchView, Effects), Fault>(
                                (
                                    MatchView::Open {
                                        patterns: matcher_views(recursive@),
                                        stuck: *stuck,
                                    },
                                    effects(*ids, owned_linked@, *attribution),
                                ),
                            ),
                            goal == Ok::<(OfferView, Effects), Fault>(
                                (
                                    OfferView::Open {
                                        patterns: left,
                                        recursive: rec_of(goal),
                                        ordering: Some(order@),
                                    },
                                    e1,
                                ),
                            ),
                            rest == visit(
                                store@,
                                self.0@,
                                children,
                                0,
                                rec_of(goal),
                                C::keeps(),
                                can_stuck,
                                *old(stuck),
                                (fuel - 1) as nat,
                                e1,
                            ),
                            e0 == effects(*old(ids), old(owned_linked)@, *old(attribution)),
                            goal == offer(
                                store@,
                                self.0@,
                                var,
                                matcher_views(old(patterns)@),
                                Seq::empty(),
                                None,
                                matcher_views(old(patterns)@).len(),
                                e0,
                            ),
                            store@.assigned(self.0.base),
                            self.1 == Head::Var(var),
                            old(owned_linked)@.is_prefix_of(owned_linked@),
                        decreases order@.len() - k,
                    {
                        let i: usize = order[k];
                        if ids.next > u64::MAX - 2 * STRIDE {
                            return Err(Fault::Exhausted);
                        }
                        if !self.0.can_arg(store, i) {
                            return Err(Fault::Malformed);
                        }
                        let id: u64 = next_u64(ids);
                        let entry = Entry::vars(id, ids);
                        let arg = self.0.arg(store, i, entry, owned_linked);
                        match arg.whnf::<true, C>(store, fuel - 1, ids, owned_linked, attribution) {
                            Err(f) => {
                                return Err(f);
                            },
                            Ok(w) => {
                                match w.pattern_match(
                                    store,
                                    &mut recursive,
                                    fuel - 1,
                                    ids,
                                    owned_linked,
                                    attribution,
                                    can_stuck,
                                    stuck,
                                ) {
                                    Err(f) => {
                                        return Err(f);
                                    },
                                    Ok(Matched::Found(term, rule)) => {
                                        return Ok(Matched::Found(term, rule));
                                    },
                                    Ok(Matched::Open) => {
                                        if recursive.len() == 0 {
                                            go = false;
                                        }
                                    },
                                }
                            },
                        }
                        k = k + 1;
                    }
                }
                let ghost more = matcher_views(recursive@);
                patterns.append(&mut recursive);
                assert(matcher_views(patterns@) =~= left + more);
                Ok(Matched::Open)
            },
        }
    }
}

/// The view of an ordering of arguments.
pub open spec fn ordering_view(o: Option<&Vec<usize>>) -> Option<Seq<usize>> {
    match o {
        None => None,
        Some(c) => Some(c@),
    }
}

/// The matchers that go on below a symbol, where an offer found no rule.
spec fn rec_of(r: Result<(OfferView, Effects), Fault>) -> Seq<MatcherView> {
    match r {
        Ok((OfferView::Open { patterns, recursive, ordering }, e)) => recursive,
        _ => Seq::empty(),
    }
}

/// The matchers that go on when anything is to be matched by a metavariable.
fn survive<'a>(patterns: &Vec<Matcher<'a>>) -> (r: Result<Vec<Matcher<'a>>, Fault>)
    ensures
        r is Ok <==> forall|k: int|
            0 <= k < matcher_views(patterns@).len() ==> (#[trigger] matcher_views(
                patterns@,
            )[k]).more(),
        r matches Ok(left) ==> matcher_views(left@) == survivors(matcher_views(patterns@)),
        r matches Err(f) ==> f == Fault::Malformed,
{
    let mut left: Vec<Matcher<'a>> = Vec::new();
    let ghost all = matcher_views(patterns@);
    let mut i: usize = 0;
    assert(matcher_views(left@) =~= survivors(all.take(0)));
    while i < patterns.len()
        invariant
            i <= patterns@.len(),
            all == matcher_views(patterns@),
            matcher_views(left@) == survivors(all.take(i as int)),
            forall|k: int| 0 <= k < i ==> (#[trigger] all[k]).more(),
        decreases patterns@.len() - i,
    {
        let m: &Matcher<'a> = &patterns[i];
        assert(all[i as int] == m@);
        if m.position >= m.rule.pattern.len() {
            return Err(Fault::Malformed);
        }
        assert(m.rule@.pattern[m.position as int] == crate::data::symbol_view(
            m.rule.pattern@[m.position as int],
        ));
        assert(all.take(i + 1).drop_last() =~= all.take(i as int));
        if m.rule.pattern[m.position].is_none() {
            let n = Matcher {
                rule: m.rule,
                position: m.position + 1,
                replacement: m.replacement.clone(),
            };
            let ghost prev = left@;
            left.push(n);
            assert(matcher_views(left@) =~= matcher_views(prev).push(n@));
        }
        i = i + 1;
    }
    assert(all.take(i as int) =~= all);
    Ok(left)
}

} // verus!
