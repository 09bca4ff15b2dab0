//! Problems and solutions as they are written: terms and types with named variables.
use crate::data::strings;
use crate::shown::{
    lemma_let_views, lemma_option_views, lemma_rule_views, lemma_term_views, shown_args,
    shown_lets, shown_option, shown_params, shown_rule, shown_rules, shown_some_rules, shown_spine,
    shown_term, shown_type, shown_typed_lets, shown_typed_params,
};
use vstd::prelude::*;

verus! {

/// A variable with a `name`.
#[derive(Debug, PartialEq, Eq)]
pub struct IRVar {
    pub name: String,
}

impl Clone for IRVar {
    fn clone(&self) -> (r: IRVar)
        ensures
            r == *self,
    {
        IRVar { name: self.name.clone() }
    }
}

/// A reduction rule, from `lhs` to `rhs`.
#[derive(Debug, PartialEq, Eq)]
pub struct IRRule {
    pub lhs: IRSpine,
    pub rhs: IRSpine,
    pub attribution: Vec<String>,
    pub is_redex: bool,
}

/// A let declaration, with a variable and the rules that it reduces by.
#[derive(Debug, PartialEq, Eq)]
pub struct IRLet {
    pub var: IRVar,
    pub rules: Vec<IRRule>,
}

/// A variable applied to arguments.
#[derive(Debug, PartialEq, Eq)]
pub struct IRSpine {
    pub head: String,
    pub args: Vec<IRTerm>,
    pub premise_rules: Vec<String>,
}

/// A term is an n-ary, β-normal, η-long λ expression:
/// `λ params lets . head args`
#[derive(Debug, PartialEq, Eq)]
pub struct IRTerm {
    pub params: Vec<IRVar>,
    pub lets: Vec<IRLet>,
    pub spine: IRSpine,
    pub goal_rules: Vec<String>,
}

/// A type is an n-ary Π-type: `Π params lets . codomain`
#[derive(Debug)]
pub struct IRType {
    pub params: Vec<Option<IRType>>,
    pub lets: Vec<Option<IRType>>,
    pub codomain: IRTerm,
}

/// The view of an `IRRule`.
#[verifier::ext_equal]
pub struct IRRuleView {
    pub lhs: IRSpineView,
    pub rhs: IRSpineView,
    pub attribution: Seq<Seq<char>>,
    pub is_redex: bool,
}

/// The view of an `IRLet`.
#[verifier::ext_equal]
pub struct IRLetView {
    pub name: Seq<char>,
    pub rules: Seq<IRRuleView>,
}

/// The view of an `IRSpine`.
#[verifier::ext_equal]
pub struct IRSpineView {
    pub head: Seq<char>,
    pub args: Seq<IRTermView>,
    pub premise_rules: Seq<Seq<char>>,
}

/// The view of an `IRTerm`.
#[verifier::ext_equal]
pub struct IRTermView {
    pub params: Seq<Seq<char>>,
    pub lets: Seq<IRLetView>,
    pub spine: IRSpineView,
    pub goal_rules: Seq<Seq<char>>,
}

/// The view of an `IRType`.
#[verifier::ext_equal]
pub struct IRTypeView {
    pub params: Seq<Option<IRTypeView>>,
    pub lets: Seq<Option<IRTypeView>>,
    pub codomain: IRTermView,
}

/// The view of a type.
pub open spec fn irtype_view(t: IRType) -> IRTypeView
    decreases t, 0nat,
{
    IRTypeView {
        params: option_views(t.params@, t.params@.len()),
        lets: option_views(t.lets@, t.lets@.len()),
        codomain: term_view(t.codomain),
    }
}

/// The view of what is known of a type.
pub open spec fn option_view(t: Option<IRType>) -> Option<IRTypeView>
    decreases t, 0nat,
{
    match t {
        None => None,
        Some(x) => Some(irtype_view(x)),
    }
}

/// The views of what is known of the first `k` types.
pub open spec fn option_views(ts: Seq<Option<IRType>>, k: nat) -> Seq<Option<IRTypeView>>
    decreases ts, k,
{
    if k == 0 || k > ts.len() {
        Seq::empty()
    } else {
        option_views(ts, (k - 1) as nat).push(option_view(ts[k - 1]))
    }
}

/// The names of variables.
pub open spec fn var_names(vars: Seq<IRVar>) -> Seq<Seq<char>> {
    vars.map_values(|v: IRVar| v.name@)
}

/// The view of a spine.
pub open spec fn spine_view(s: IRSpine) -> IRSpineView
    decreases s, 0nat,
{
    IRSpineView {
        head: s.head@,
        args: term_views(s.args@, s.args@.len()),
        premise_rules: strings(s.premise_rules@),
    }
}

/// The views of the first `k` terms.
pub open spec fn term_views(ts: Seq<IRTerm>, k: nat) -> Seq<IRTermView>
    decreases ts, k,
{
    if k == 0 || k > ts.len() {
        Seq::empty()
    } else {
        term_views(ts, (k - 1) as nat).push(term_view(ts[k - 1]))
    }
}

/// The view of a term.
pub open spec fn term_view(t: IRTerm) -> IRTermView
    decreases t, 0nat,
{
    IRTermView {
        params: var_names(t.params@),
        lets: let_views(t.lets@, t.lets@.len()),
        spine: spine_view(t.spine),
        goal_rules: strings(t.goal_rules@),
    }
}

/// The views of the first `k` let declarations.
pub open spec fn let_views(ls: Seq<IRLet>, k: nat) -> Seq<IRLetView>
    decreases ls, k,
{
    if k == 0 || k > ls.len() {
        Seq::empty()
    } else {
        let_views(ls, (k - 1) as nat).push(let_view(ls[k - 1]))
    }
}

/// The view of a let declaration.
pub open spec fn let_view(l: IRLet) -> IRLetView
    decreases l, 0nat,
{
    IRLetView { name: l.var.name@, rules: rule_views(l.rules@, l.rules@.len()) }
}

/// The views of the first `k` rules.
pub open spec fn rule_views(rs: Seq<IRRule>, k: nat) -> Seq<IRRuleView>
    decreases rs, k,
{
    if k == 0 || k > rs.len() {
        Seq::empty()
    } else {
        rule_views(rs, (k - 1) as nat).push(rule_view(rs[k - 1]))
    }
}

/// The view of a rule.
pub open spec fn rule_view(r: IRRule) -> IRRuleView
    decreases r, 0nat,
{
    IRRuleView {
        lhs: spine_view(r.lhs),
        rhs: spine_view(r.rhs),
        attribution: strings(r.attribution@),
        is_redex: r.is_redex,
    }
}

impl IRSpine {
    /// Adds the spine as text.
    pub fn write(&self, out: &mut String)
        ensures
            final(out)@ == old(out)@ + shown_spine(spine_view(*self)),
        decreases self, 0nat,
    {
        out.append(self.head.as_str());
        let ghost views = term_views(self.args@, self.args@.len());
        proof {
            lemma_term_views(self.args@, self.args@.len());
        }
        let mut i: usize = 0;
        while i < self.args.len()
            invariant
                i <= self.args@.len(),
                views.len() == self.args@.len(),
                forall|j: int|
                    0 <= j < views.len() ==> #[trigger] views[j] == term_view(self.args@[j]),
                out@ == old(out)@ + self.head@ + shown_args(views, i as nat),
            decreases self.args@.len() - i,
        {
            let t: &IRTerm = &self.args[i];
            assert(decreases_to!(*self => self.args@));
            assert(decreases_to!(self.args@ => self.args@[i as int]));
            proof {
                assert(views[i as int] == term_view(*t));
                lemma_let_views(t.lets@, t.lets@.len());
                lemma_term_views(t.spine.args@, t.spine.args@.len());
                assert(spine_view(t.spine).args.len() == t.spine.args@.len());
            }
            if t.params.len() == 0 && t.lets.len() == 0 && t.spine.args.len() == 0 {
                out.append(" ");
                t.write(out);
            } else {
                out.append(" (");
                t.write(out);
                out.append(")");
            }
            i = i + 1;
            assert(out@ =~= old(out)@ + self.head@ + shown_args(views, i as nat));
        }
        assert(out@ =~= old(out)@ + shown_spine(spine_view(*self)));
    }

    /// The spine as text.
    pub fn to_string(&self) -> (r: String)
        ensures
            r@ == shown_spine(spine_view(*self)),
    {
        let mut out = String::new();
        self.write(&mut out);
        assert(out@ =~= shown_spine(spine_view(*self)));
        out
    }
}

impl IRRule {
    /// Adds the rule as text.
    pub fn write(&self, out: &mut String)
        ensures
            final(out)@ == old(out)@ + shown_rule(rule_view(*self)),
        decreases self, 0nat,
    {
        self.lhs.write(out);
        out.append(" ↦ ");
        self.rhs.write(out);
        assert(out@ =~= old(out)@ + shown_rule(rule_view(*self)));
    }

    /// The rule as text.
    pub fn to_string(&self) -> (r: String)
        ensures
            r@ == shown_rule(rule_view(*self)),
    {
        let mut out = String::new();
        self.write(&mut out);
        assert(out@ =~= shown_rule(rule_view(*self)));
        out
    }
}

proof fn lemma_joined(a: Seq<char>, b: Seq<char>, c: Seq<char>, d: Seq<char>)
    ensures
        a + b + c + d == a + (b + c + d),
{
    assert(a + b + c + d =~= a + (b + c + d));
}

proof fn lemma_typed(
    head: Seq<char>,
    name: Seq<char>,
    mid: Seq<char>,
    typ: Seq<char>,
    close: Seq<char>,
    sep: Seq<char>,
)
    ensures
        head + "("@ + name + mid + typ + close + sep == head + ("("@ + name + mid + typ + close
            + sep),
{
    assert(head + "("@ + name + mid + typ + close + sep =~= head + ("("@ + name + mid + typ + close
        + sep));
}

proof fn lemma_defined(
    head: Seq<char>,
    name: Seq<char>,
    mid: Seq<char>,
    typ: Seq<char>,
    defined: Seq<char>,
    rules: Seq<char>,
    close: Seq<char>,
    sep: Seq<char>,
)
    ensures
        head + "("@ + name + mid + typ + defined + rules + close + sep == head + ("("@ + name + mid
            + typ + defined + rules + close + sep),
{
    assert(head + "("@ + name + mid + typ + defined + rules + close + sep =~= head + ("("@ + name
        + mid + typ + defined + rules + close + sep));
}

/// Adds a list of rules as text.
pub fn write_rules(rules: &Vec<IRRule>, out: &mut String)
    ensures
        final(out)@ == old(out)@ + shown_rules(rule_views(rules@, rules@.len())),
    decreases rules@, rules@.len() + 1,
{
    let ghost views = rule_views(rules@, rules@.len());
    proof {
        lemma_rule_views(rules@, rules@.len());
    }
    out.append("[");
    let mut i: usize = 0;
    assert(out@ =~= old(out)@ + "["@ + shown_some_rules(views, 0));
    while i < rules.len()
        invariant
            i <= rules@.len(),
            views.len() == rules@.len(),
            forall|j: int| 0 <= j < views.len() ==> #[trigger] views[j] == rule_view(rules@[j]),
            out@ == old(out)@ + "["@ + shown_some_rules(views, i as nat),
        decreases rules@.len() - i,
    {
        let ghost head = old(out)@ + "["@;
        let ghost done = shown_some_rules(views, i as nat);
        if i > 0 {
            out.append(", ");
        }
        let ghost mid = out@;
        assert(decreases_to!(rules@ => rules@[i as int]));
        rules[i].write(out);
        let ghost piece = shown_rule(views[i as int]);
        proof {
            assert(out@ == mid + piece);
            if i > 0 {
                assert(shown_some_rules(views, (i + 1) as nat) == done + ", "@ + piece);
                lemma_joined(head, done, ", "@, piece);
            } else {
                assert(shown_some_rules(views, 1) == piece);
                assert(mid =~= head);
            }
        }
        i = i + 1;
    }
    out.append("]");
    assert(out@ =~= old(out)@ + shown_rules(views));
}

proof fn lemma_declared(head: Seq<char>, done: Seq<char>, name: Seq<char>, rules: Seq<char>)
    ensures
        head + done + ", "@ + name + " := "@ + rules == head + (done + ", "@ + name + " := "@
            + rules),
{
    assert(head + done + ", "@ + name + " := "@ + rules =~= head + (done + ", "@ + name + " := "@
        + rules));
}

impl IRTerm {
    /// Adds the term as text.
    #[verifier::rlimit(60)]
    #[verifier::spinoff_prover]
    pub fn write(&self, out: &mut String)
        ensures
            final(out)@ == old(out)@ + shown_term(term_view(*self)),
        decreases self, 0nat,
    {
        if self.params.len() > 0 || self.lets.len() > 0 {
            let ghost names = var_names(self.params@);
            let ghost views = let_views(self.lets@, self.lets@.len());
            proof {
                lemma_let_views(self.lets@, self.lets@.len());
            }
            out.append("λ");
            let mut i: usize = 0;
            assert(out@ =~= old(out)@ + "λ"@ + shown_params(names, 0));
            while i < self.params.len()
                invariant
                    i <= self.params@.len(),
                    names == var_names(self.params@),
                    out@ == old(out)@ + "λ"@ + shown_params(names, i as nat),
                decreases self.params@.len() - i,
            {
                out.append(" ");
                out.append(self.params[i].name.as_str());
                i = i + 1;
                assert(out@ =~= old(out)@ + "λ"@ + shown_params(names, i as nat));
            }
            let ghost head = out@;
            let mut i: usize = 0;
            assert(out@ =~= head + shown_lets(views, 0));
            while i < self.lets.len()
                invariant
                    i <= self.lets@.len(),
                    views.len() == self.lets@.len(),
                    forall|j: int|
                        0 <= j < views.len() ==> #[trigger] views[j] == let_view(self.lets@[j]),
                    out@ == head + shown_lets(views, i as nat),
                decreases self.lets@.len() - i,
            {
                let d: &IRLet = &self.lets[i];
                assert(decreases_to!(*self => self.lets@));
                assert(decreases_to!(self.lets@ => self.lets@[i as int]));
                assert(decreases_to!(d => d.rules@));
                assert(views[i as int] == let_view(*d));
                out.append(", ");
                out.append(d.var.name.as_str());
                out.append(" := ");
                write_rules(&d.rules, out);
                proof {
                    lemma_declared(
                        head,
                        shown_lets(views, i as nat),
                        d.var.name@,
                        shown_rules(views[i as int].rules),
                    );
                }
                i = i + 1;
                assert(out@ == head + shown_lets(views, i as nat));
            }
            out.append(" ↦ ");
        }
        self.spine.write(out);
        assert(out@ =~= old(out)@ + shown_term(term_view(*self)));
    }

    /// The term as text.
    pub fn to_string(&self) -> (r: String)
        ensures
            r@ == shown_term(term_view(*self)),
    {
        let mut out = String::new();
        self.write(&mut out);
        assert(out@ =~= shown_term(term_view(*self)));
        out
    }
}

impl IRType {
    /// Adds the type as text.
    #[verifier::rlimit(60)]
    #[verifier::spinoff_prover]
    pub fn write(&self, out: &mut String, sep: &str)
        ensures
            final(out)@ == old(out)@ + shown_type(irtype_view(*self), sep@),
        decreases self, 0nat,
    {
        let ghost params = option_views(self.params@, self.params@.len());
        let ghost typed = option_views(self.lets@, self.lets@.len());
        let ghost names = var_names(self.codomain.params@);
        let ghost lets = let_views(self.codomain.lets@, self.codomain.lets@.len());
        proof {
            lemma_option_views(self.params@, self.params@.len());
            lemma_option_views(self.lets@, self.lets@.len());
            lemma_let_views(self.codomain.lets@, self.codomain.lets@.len());
        }
        let mut i: usize = 0;
        assert(out@ =~= old(out)@ + shown_typed_params(params, names, sep@, 0));
        while i < self.params.len()
            invariant
                i <= self.params@.len(),
                names == var_names(self.codomain.params@),
                params.len() == self.params@.len(),
                forall|j: int|
                    0 <= j < params.len() ==> #[trigger] params[j] == option_view(self.params@[j]),
                out@ == old(out)@ + shown_typed_params(params, names, sep@, i as nat),
            decreases self.params@.len() - i,
        {
            assert(decreases_to!(*self => self.params@));
            assert(decreases_to!(self.params@ => self.params@[i as int]));
            let ghost before = out@;
            if i < self.codomain.params.len() {
                out.append("(");
                out.append(self.codomain.params[i].name.as_str());
                out.append(" : ");
                match &self.params[i] {
                    Some(t) => {
                        t.write(out, " ");
                    },
                    None => {
                        out.append("*");
                    },
                }
                assert(out@ == before + "("@ + names[i as int] + " : "@ + shown_option(
                    params[i as int],
                ));
                out.append(") →");
                out.append(sep);
            }
            proof {
                let piece = if i < names.len() {
                    "("@ + names[i as int] + " : "@ + shown_option(params[i as int])
                        + ") →"@ + sep@
                } else {
                    Seq::empty()
                };
                if i < names.len() {
                    lemma_typed(
                        before,
                        names[i as int],
                        " : "@,
                        shown_option(params[i as int]),
                        ") →"@,
                        sep@,
                    );
                } else {
                    assert(before =~= before + piece);
                }
                assert(out@ == before + piece);
                let done = shown_typed_params(params, names, sep@, i as nat);
                assert(shown_typed_params(params, names, sep@, (i + 1) as nat) == done + piece);
                assert(old(out)@ + done + piece =~= old(out)@ + (done + piece));
            }
            i = i + 1;
        }
        let ghost head = out@;
        let mut i: usize = 0;
        assert(out@ =~= head + shown_typed_lets(typed, lets, sep@, 0));
        while i < self.lets.len()
            invariant
                i <= self.lets@.len(),
                lets.len() == self.codomain.lets@.len(),
                forall|j: int|
                    0 <= j < lets.len() ==> #[trigger] lets[j] == let_view(self.codomain.lets@[j]),
                typed.len() == self.lets@.len(),
                forall|j: int|
                    0 <= j < typed.len() ==> #[trigger] typed[j] == option_view(self.lets@[j]),
                out@ == head + shown_typed_lets(typed, lets, sep@, i as nat),
            decreases self.lets@.len() - i,
        {
            assert(decreases_to!(*self => self.lets@));
            assert(decreases_to!(self.lets@ => self.lets@[i as int]));
            let ghost before = out@;
            if i < self.codomain.lets.len() {
                out.append("(");
                out.append(self.codomain.lets[i].var.name.as_str());
                out.append(" : ");
                match &self.lets[i] {
                    Some(t) => {
                        t.write(out, " ");
                    },
                    None => {
                        out.append("*");
                    },
                }
                assert(out@ == before + "("@ + lets[i as int].name + " : "@ + shown_option(
                    typed[i as int],
                ));
                out.append(" := ");
                write_rules(&self.codomain.lets[i].rules, out);
                out.append(") →");
                out.append(sep);
            }
            proof {
                let piece = if i < lets.len() {
                    "("@ + lets[i as int].name + " : "@ + shown_option(typed[i as int])
                        + " := "@ + shown_rules(lets[i as int].rules) + ") →"@ + sep@
                } else {
                    Seq::empty()
                };
                if i < lets.len() {
                    lemma_defined(
                        before,
                        lets[i as int].name,
                        " : "@,
                        shown_option(typed[i as int]),
                        " := "@,
                        shown_rules(lets[i as int].rules),
                        ") →"@,
                        sep@,
                    );
                } else {
                    assert(before =~= before + piece);
                }
                assert(out@ == before + piece);
                let done = shown_typed_lets(typed, lets, sep@, i as nat);
                assert(shown_typed_lets(typed, lets, sep@, (i + 1) as nat) == done + piece);
                assert(head + done + piece =~= head + (done + piece));
            }
            i = i + 1;
        }
        let ghost before = out@;
        self.codomain.spine.write(out);
        proof {
            let ps = shown_typed_params(params, names, sep@, self.params@.len());
            let ls = shown_typed_lets(typed, lets, sep@, self.lets@.len());
            let sp = shown_spine(spine_view(self.codomain.spine));
            assert(out@ == old(out)@ + ps + ls + sp);
            lemma_joined(old(out)@, ps, ls, sp);
        }
    }

    /// The type as text, with `sep` after each parameter and let declaration.
    pub fn fmt(&self, sep: &str) -> (r: String)
        ensures
            r@ == shown_type(irtype_view(*self), sep@),
    {
        let mut out = String::new();
        self.write(&mut out, sep);
        assert(out@ =~= shown_type(irtype_view(*self), sep@));
        out
    }

    /// The type as text, with each parameter and let declaration on a line of its own.
    pub fn to_string(&self) -> (r: String)
        ensures
            r@ == shown_type(irtype_view(*self), "\n"@),
    {
        self.fmt("\n")
    }
}

} // verus!
