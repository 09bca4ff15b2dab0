//! The text of terms, in terms of their views.
use crate::ir::{
    let_view, let_views, option_view, option_views, rule_view, rule_views, term_view, term_views,
    IRLet, IRLetView, IRRule, IRRuleView, IRSpineView, IRTerm, IRTermView, IRType, IRTypeView,
};
use vstd::prelude::*;

verus! {

/// A spine as text: the head, and each argument after a space.
pub open spec fn shown_spine(s: IRSpineView) -> Seq<char>
    decreases s, 0nat,
{
    s.head + shown_args(s.args, s.args.len())
}

/// The first `k` arguments as text.
pub open spec fn shown_args(args: Seq<IRTermView>, k: nat) -> Seq<char>
    decreases args, k,
{
    if k == 0 || k > args.len() {
        Seq::empty()
    } else {
        let t = args[k - 1];
        shown_args(args, (k - 1) as nat) + if t.params.len() == 0 && t.lets.len() == 0
            && t.spine.args.len() == 0 {
            " "@ + shown_term(t)
        } else {
            " ("@ + shown_term(t) + ")"@
        }
    }
}

/// A term as text: what it binds, if anything, and its spine.
pub open spec fn shown_term(t: IRTermView) -> Seq<char>
    decreases t, 0nat,
{
    if t.params.len() == 0 && t.lets.len() == 0 {
        shown_spine(t.spine)
    } else {
        "λ"@ + shown_params(t.params, t.params.len()) + shown_lets(t.lets, t.lets.len()) + " ↦ "@
            + shown_spine(t.spine)
    }
}

/// The first `k` names, each after a space.
pub open spec fn shown_params(params: Seq<Seq<char>>, k: nat) -> Seq<char>
    decreases k,
{
    if k == 0 || k > params.len() {
        Seq::empty()
    } else {
        shown_params(params, (k - 1) as nat) + " "@ + params[k - 1]
    }
}

/// The first `k` let declarations, each after a comma.
pub open spec fn shown_lets(lets: Seq<IRLetView>, k: nat) -> Seq<char>
    decreases lets, k,
{
    if k == 0 || k > lets.len() {
        Seq::empty()
    } else {
        shown_lets(lets, (k - 1) as nat) + ", "@ + lets[k - 1].name + " := "@ + shown_rules(
            lets[k - 1].rules,
        )
    }
}

/// A list of rules as text.
pub open spec fn shown_rules(rules: Seq<IRRuleView>) -> Seq<char>
    decreases rules, rules.len() + 1,
{
    "["@ + shown_some_rules(rules, rules.len()) + "]"@
}

/// The first `k` rules, separated by commas.
pub open spec fn shown_some_rules(rules: Seq<IRRuleView>, k: nat) -> Seq<char>
    decreases rules, k,
{
    if k == 0 || k > rules.len() {
        Seq::empty()
    } else if k == 1 {
        shown_rule(rules[0])
    } else {
        shown_some_rules(rules, (k - 1) as nat) + ", "@ + shown_rule(rules[k - 1])
    }
}

/// A rule as text.
pub open spec fn shown_rule(r: IRRuleView) -> Seq<char>
    decreases r, 0nat,
{
    shown_spine(r.lhs) + " ↦ "@ + shown_spine(r.rhs)
}

/// A type as text: each parameter and each let declaration with its type, followed by `sep`, and
/// the codomain.
pub open spec fn shown_type(t: IRTypeView, sep: Seq<char>) -> Seq<char>
    decreases t, 0nat,
{
    shown_typed_params(t.params, t.codomain.params, sep, t.params.len()) + shown_typed_lets(
        t.lets,
        t.codomain.lets,
        sep,
        t.lets.len(),
    ) + shown_spine(t.codomain.spine)
}

/// What is known of a type, as text.
pub open spec fn shown_option(t: Option<IRTypeView>) -> Seq<char>
    decreases t, 0nat,
{
    match t {
        Some(x) => shown_type(x, " "@),
        None => "*"@,
    }
}

/// The first `k` parameters that have a type and a name, as text.
pub open spec fn shown_typed_params(
    types: Seq<Option<IRTypeView>>,
    names: Seq<Seq<char>>,
    sep: Seq<char>,
    k: nat,
) -> Seq<char>
    decreases types, k,
{
    if k == 0 || k > types.len() {
        Seq::empty()
    } else {
        shown_typed_params(types, names, sep, (k - 1) as nat) + if k <= names.len() {
            "("@ + names[k - 1] + " : "@ + shown_option(types[k - 1]) + ") →"@ + sep
        } else {
            Seq::empty()
        }
    }
}

/// The first `k` let declarations that have a type and a name, as text.
pub open spec fn shown_typed_lets(
    types: Seq<Option<IRTypeView>>,
    lets: Seq<IRLetView>,
    sep: Seq<char>,
    k: nat,
) -> Seq<char>
    decreases types, k,
{
    if k == 0 || k > types.len() {
        Seq::empty()
    } else {
        shown_typed_lets(types, lets, sep, (k - 1) as nat) + if k <= lets.len() {
            "("@ + lets[k - 1].name + " : "@ + shown_option(types[k - 1]) + " := "@ + shown_rules(
                lets[k - 1].rules,
            ) + ") →"@ + sep
        } else {
            Seq::empty()
        }
    }
}

pub proof fn lemma_option_views(ts: Seq<Option<IRType>>, k: nat)
    requires
        k <= ts.len(),
    ensures
        option_views(ts, k).len() == k,
        forall|i: int| 0 <= i < k ==> #[trigger] option_views(ts, k)[i] == option_view(ts[i]),
    decreases k,
{
    if k > 0 {
        lemma_option_views(ts, (k - 1) as nat);
    }
}

pub proof fn lemma_term_views(ts: Seq<IRTerm>, k: nat)
    requires
        k <= ts.len(),
    ensures
        term_views(ts, k).len() == k,
        forall|i: int| 0 <= i < k ==> #[trigger] term_views(ts, k)[i] == term_view(ts[i]),
    decreases k,
{
    if k > 0 {
        lemma_term_views(ts, (k - 1) as nat);
    }
}

pub proof fn lemma_let_views(ls: Seq<IRLet>, k: nat)
    requires
        k <= ls.len(),
    ensures
        let_views(ls, k).len() == k,
        forall|i: int| 0 <= i < k ==> #[trigger] let_views(ls, k)[i] == let_view(ls[i]),
    decreases k,
{
    if k > 0 {
        lemma_let_views(ls, (k - 1) as nat);
    }
}

pub proof fn lemma_rule_views(rs: Seq<IRRule>, k: nat)
    requires
        k <= rs.len(),
    ensures
        rule_views(rs, k).len() == k,
        forall|i: int| 0 <= i < k ==> #[trigger] rule_views(rs, k)[i] == rule_view(rs[i]),
    decreases k,
{
    if k > 0 {
        lemma_rule_views(rs, (k - 1) as nat);
    }
}

} // verus!
