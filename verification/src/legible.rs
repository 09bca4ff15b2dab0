//! Text tells terms and types apart.
use crate::ir::{IRLetView, IRRuleView, IRSpineView, IRTermView, IRTypeView};
use crate::shown::{
    shown_args, shown_lets, shown_option, shown_params, shown_rule, shown_rules, shown_some_rules,
    shown_spine, shown_term, shown_type, shown_typed_lets, shown_typed_params,
};
use vstd::prelude::*;

verus! {

/// Whether the character is part of no name.
pub open spec fn special(c: char) -> bool {
    c == ' ' || c == '(' || c == ')' || c == '[' || c == ']' || c == ',' || c == ':' || c == '*'
        || c == 'λ' || c == '↦'
}

/// Whether the name can be told from what stands around it.
pub open spec fn clear_name(s: Seq<char>) -> bool {
    s.len() > 0 && forall|i: int| 0 <= i < s.len() ==> !special(#[trigger] s[i])
}

/// Whether all of the names can be told from what stands around them.
pub open spec fn clear_names(ss: Seq<Seq<char>>) -> bool {
    forall|i: int| 0 <= i < ss.len() ==> clear_name(#[trigger] ss[i])
}

/// Whether all names in the spine are clear.
pub open spec fn clear_spine(s: IRSpineView) -> bool
    decreases s,
{
    clear_name(s.head) && clear_terms(s.args)
}

/// Whether all names in the terms are clear.
pub open spec fn clear_terms(ts: Seq<IRTermView>) -> bool
    decreases ts,
{
    forall|i: int| 0 <= i < ts.len() ==> clear_term(#[trigger] ts[i])
}

/// Whether all names in the term are clear.
pub open spec fn clear_term(t: IRTermView) -> bool
    decreases t,
{
    clear_names(t.params) && clear_lets(t.lets) && clear_spine(t.spine)
}

/// Whether all names in the let declarations are clear.
pub open spec fn clear_lets(ls: Seq<IRLetView>) -> bool
    decreases ls,
{
    forall|i: int| 0 <= i < ls.len() ==> clear_let(#[trigger] ls[i])
}

/// Whether all names in the let declaration are clear.
pub open spec fn clear_let(l: IRLetView) -> bool
    decreases l,
{
    clear_name(l.name) && clear_rules(l.rules)
}

/// Whether all names in the rules are clear.
pub open spec fn clear_rules(rs: Seq<IRRuleView>) -> bool
    decreases rs,
{
    forall|i: int| 0 <= i < rs.len() ==> clear_rule(#[trigger] rs[i])
}

/// Whether all names in the rule are clear.
pub open spec fn clear_rule(r: IRRuleView) -> bool
    decreases r,
{
    clear_spine(r.lhs) && clear_spine(r.rhs)
}

/// Whether all names in the type are clear, and each parameter and each let declaration has a type
/// and a name.
pub open spec fn clear_type(t: IRTypeView) -> bool
    decreases t,
{
    &&& t.params.len() == t.codomain.params.len()
    &&& t.lets.len() == t.codomain.lets.len()
    &&& clear_options(t.params)
    &&& clear_options(t.lets)
    &&& clear_term(t.codomain)
}

/// Whether all names in what is known of the types are clear.
pub open spec fn clear_options(ts: Seq<Option<IRTypeView>>) -> bool
    decreases ts,
{
    forall|i: int| 0 <= i < ts.len() ==> clear_option(#[trigger] ts[i])
}

/// Whether all names in what is known of the type are clear.
pub open spec fn clear_option(t: Option<IRTypeView>) -> bool
    decreases t,
{
    t matches Some(x) ==> clear_type(x)
}

/// Whether the spines have the same head and the same arguments, in order.
pub open spec fn same_spine(a: IRSpineView, b: IRSpineView) -> bool
    decreases a,
{
    a.head == b.head && same_terms(a.args, b.args)
}

/// Whether the terms are the same, one by one.
pub open spec fn same_terms(a: Seq<IRTermView>, b: Seq<IRTermView>) -> bool
    decreases a,
{
    a.len() == b.len() && forall|i: int| 0 <= i < a.len() ==> same_term(#[trigger] a[i], b[i])
}

/// Whether the terms bind the same, and have the same spine.
pub open spec fn same_term(a: IRTermView, b: IRTermView) -> bool
    decreases a,
{
    a.params == b.params && same_lets(a.lets, b.lets) && same_spine(a.spine, b.spine)
}

/// Whether the let declarations are the same, one by one.
pub open spec fn same_lets(a: Seq<IRLetView>, b: Seq<IRLetView>) -> bool
    decreases a,
{
    a.len() == b.len() && forall|i: int| 0 <= i < a.len() ==> same_let(#[trigger] a[i], b[i])
}

/// Whether the let declarations have the same name and the same rules.
pub open spec fn same_let(a: IRLetView, b: IRLetView) -> bool
    decreases a,
{
    a.name == b.name && same_rules(a.rules, b.rules)
}

/// Whether the rules are the same, one by one.
pub open spec fn same_rules(a: Seq<IRRuleView>, b: Seq<IRRuleView>) -> bool
    decreases a,
{
    a.len() == b.len() && forall|i: int| 0 <= i < a.len() ==> same_rule(#[trigger] a[i], b[i])
}

/// Whether the rules have the same sides.
pub open spec fn same_rule(a: IRRuleView, b: IRRuleView) -> bool
    decreases a,
{
    same_spine(a.lhs, b.lhs) && same_spine(a.rhs, b.rhs)
}

/// Whether the types have the same parameters and let declarations, with the same types, and the
/// same codomain.
pub open spec fn same_type(a: IRTypeView, b: IRTypeView) -> bool
    decreases a,
{
    &&& a.codomain.params == b.codomain.params
    &&& same_lets(a.codomain.lets, b.codomain.lets)
    &&& same_options(a.params, b.params)
    &&& same_options(a.lets, b.lets)
    &&& same_spine(a.codomain.spine, b.codomain.spine)
}

/// Whether the same is known of the types, one by one.
pub open spec fn same_options(a: Seq<Option<IRTypeView>>, b: Seq<Option<IRTypeView>>) -> bool
    decreases a,
{
    a.len() == b.len() && forall|i: int| 0 <= i < a.len() ==> same_option(#[trigger] a[i], b[i])
}

/// Whether the same is known of the types.
pub open spec fn same_option(a: Option<IRTypeView>, b: Option<IRTypeView>) -> bool
    decreases a,
{
    match (a, b) {
        (None, None) => true,
        (Some(x), Some(y)) => same_type(x, y),
        _ => false,
    }
}

/// Whether a name ends before `r`.
spec fn name_ends(r: Seq<char>) -> bool {
    r.len() == 0 || special(r[0])
}

/// Whether a spine ends before `r`.
spec fn spine_ends(r: Seq<char>) -> bool {
    ||| r.len() == 0
    ||| r[0] == ')' || r[0] == ']' || r[0] == ','
    ||| r.len() > 1 && r[0] == ' ' && (r[1] == '↦' || r[1] == ':')
}

/// The text of an argument: after a space, and between parentheses unless it is a variable alone.
pub open spec fn argument_text(t: IRTermView) -> Seq<char> {
    if t.params.len() == 0 && t.lets.len() == 0 && t.spine.args.len() == 0 {
        seq![' '] + t.spine.head
    } else {
        seq![' ', '('] + shown_term(t) + seq![')']
    }
}

/// The texts of the arguments from the `k`th on.
pub open spec fn arguments_text(args: Seq<IRTermView>, k: nat) -> Seq<char>
    decreases args.len() - k,
{
    if k >= args.len() {
        Seq::empty()
    } else {
        argument_text(args[k as int]) + arguments_text(args, k + 1)
    }
}

/// The texts of the parameters from the `k`th on.
spec fn params_text(params: Seq<Seq<char>>, k: nat) -> Seq<char>
    decreases params.len() - k,
{
    if k >= params.len() {
        Seq::empty()
    } else {
        seq![' '] + params[k as int] + params_text(params, k + 1)
    }
}

/// The text of a let declaration.
spec fn let_text(l: IRLetView) -> Seq<char> {
    seq![',', ' '] + l.name + seq![' ', ':', '=', ' '] + list_text(l.rules)
}

/// The text of a list of rules.
spec fn list_text(rules: Seq<IRRuleView>) -> Seq<char> {
    seq!['['] + rules_text(rules, 0) + seq![']']
}

/// The texts of the let declarations from the `k`th on.
spec fn lets_text(lets: Seq<IRLetView>, k: nat) -> Seq<char>
    decreases lets.len() - k,
{
    if k >= lets.len() {
        Seq::empty()
    } else {
        let_text(lets[k as int]) + lets_text(lets, k + 1)
    }
}

/// The texts of the rules from the `k`th on.
spec fn rules_text(rules: Seq<IRRuleView>, k: nat) -> Seq<char>
    decreases rules.len() - k,
{
    if k >= rules.len() {
        Seq::empty()
    } else {
        (if k > 0 {
            seq![',', ' ']
        } else {
            Seq::empty()
        }) + shown_rule(rules[k as int]) + rules_text(rules, k + 1)
    }
}

proof fn lemma_literals()
    ensures
        " "@ == seq![' '],
        " ("@ == seq![' ', '('],
        ")"@ == seq![')'],
        "λ"@ == seq!['λ'],
        " ↦ "@ == seq![' ', '↦', ' '],
        ", "@ == seq![',', ' '],
        " := "@ == seq![' ', ':', '=', ' '],
        "["@ == seq!['['],
        "]"@ == seq![']'],
        "("@ == seq!['('],
        " : "@ == seq![' ', ':', ' '],
        ") →"@ == seq![')', ' ', '→'],
        "*"@ == seq!['*'],
{
    reveal_strlit(" ");
    reveal_strlit(" (");
    reveal_strlit(")");
    reveal_strlit("λ");
    reveal_strlit(" ↦ ");
    reveal_strlit(", ");
    reveal_strlit(" := ");
    reveal_strlit("[");
    reveal_strlit("]");
    reveal_strlit("(");
    reveal_strlit(" : ");
    reveal_strlit(") →");
    reveal_strlit("*");
    assert(" "@ =~= seq![' ']);
    assert(" ("@ =~= seq![' ', '(']);
    assert(")"@ =~= seq![')']);
    assert("λ"@ =~= seq!['λ']);
    assert(" ↦ "@ =~= seq![' ', '↦', ' ']);
    assert(", "@ =~= seq![',', ' ']);
    assert(" := "@ =~= seq![' ', ':', '=', ' ']);
    assert("["@ =~= seq!['[']);
    assert("]"@ =~= seq![']']);
    assert("("@ =~= seq!['(']);
    assert(" : "@ =~= seq![' ', ':', ' ']);
    assert(") →"@ =~= seq![')', ' ', '→']);
    assert("*"@ =~= seq!['*']);
}

proof fn lemma_cat3(a: Seq<char>, b: Seq<char>, c: Seq<char>)
    ensures
        a + b + c == a + (b + c),
{
    assert(a + b + c =~= a + (b + c));
}

proof fn lemma_cat4(a: Seq<char>, b: Seq<char>, c: Seq<char>, d: Seq<char>)
    ensures
        a + b + c + d == a + (b + (c + d)),
{
    lemma_cat3(a + b, c, d);
    lemma_cat3(a, b, c + d);
}

proof fn lemma_cat5(a: Seq<char>, b: Seq<char>, c: Seq<char>, d: Seq<char>, e: Seq<char>)
    ensures
        a + b + c + d + e == a + (b + (c + (d + e))),
{
    lemma_cat4(a + b, c, d, e);
    lemma_cat3(a, b, c + (d + e));
}

proof fn lemma_cat6(
    a: Seq<char>,
    b: Seq<char>,
    c: Seq<char>,
    d: Seq<char>,
    e: Seq<char>,
    f: Seq<char>,
)
    ensures
        a + b + c + d + e + f == a + (b + (c + (d + (e + f)))),
{
    lemma_cat5(a + b, c, d, e, f);
    lemma_cat3(a, b, c + (d + (e + f)));
}

proof fn lemma_cat7(
    a: Seq<char>,
    b: Seq<char>,
    c: Seq<char>,
    d: Seq<char>,
    e: Seq<char>,
    f: Seq<char>,
    g: Seq<char>,
)
    ensures
        a + b + c + d + e + f + g == a + (b + (c + (d + (e + (f + g))))),
{
    lemma_cat6(a + b, c, d, e, f, g);
    lemma_cat3(a, b, c + (d + (e + (f + g))));
}

proof fn lemma_cat8(
    a: Seq<char>,
    b: Seq<char>,
    c: Seq<char>,
    d: Seq<char>,
    e: Seq<char>,
    f: Seq<char>,
    g: Seq<char>,
    h: Seq<char>,
)
    ensures
        a + b + c + d + e + f + g + h == a + (b + (c + (d + (e + (f + (g + h)))))),
{
    lemma_cat7(a + b, c, d, e, f, g, h);
    lemma_cat3(a, b, c + (d + (e + (f + (g + h)))));
}

/// Sequences that are joined to the same, with beginnings of the same length.
proof fn lemma_split(a: Seq<char>, b: Seq<char>, r: Seq<char>, s: Seq<char>)
    requires
        a + r == b + s,
        a.len() == b.len(),
    ensures
        a == b,
        r == s,
{
    assert(a =~= (a + r).take(a.len() as int));
    assert(b =~= (b + s).take(a.len() as int));
    assert(r =~= (a + r).skip(a.len() as int));
    assert(s =~= (b + s).skip(a.len() as int));
}

proof fn lemma_name(a: Seq<char>, b: Seq<char>, r: Seq<char>, s: Seq<char>)
    requires
        clear_name(a),
        clear_name(b),
        a + r == b + s,
        name_ends(r),
        name_ends(s),
    ensures
        a == b,
        r == s,
{
    assert((a + r).len() == (b + s).len());
    if a.len() < b.len() {
        assert((a + r)[a.len() as int] == r[0]);
        assert((b + s)[a.len() as int] == b[a.len() as int]);
    } else if b.len() < a.len() {
        assert((b + s)[b.len() as int] == s[0]);
        assert((a + r)[b.len() as int] == a[b.len() as int]);
    }
    lemma_split(a, b, r, s);
}

proof fn lemma_args_layout(args: Seq<IRTermView>, k: nat)
    requires
        k <= args.len(),
    ensures
        shown_args(args, args.len()) == shown_args(args, k) + arguments_text(args, k),
    decreases args.len() - k,
{
    if k < args.len() {
        lemma_args_layout(args, k + 1);
        lemma_literals();
        let t = args[k as int];
        let done = shown_args(args, k);
        let rest = arguments_text(args, k + 1);
        lemma_argument_layout(t);
        assert(shown_args(args, k + 1) =~= done + argument_text(t));
        assert(done + argument_text(t) + rest =~= done + (argument_text(t) + rest));
    } else {
        assert(shown_args(args, k) + arguments_text(args, k) =~= shown_args(args, k));
    }
}

proof fn lemma_argument_layout(t: IRTermView)
    ensures
        argument_text(t) == if t.params.len() == 0 && t.lets.len() == 0 && t.spine.args.len() == 0 {
            " "@ + shown_term(t)
        } else {
            " ("@ + shown_term(t) + ")"@
        },
{
    lemma_literals();
    if t.params.len() == 0 && t.lets.len() == 0 && t.spine.args.len() == 0 {
        assert(shown_args(t.spine.args, 0) =~= Seq::empty());
        assert(shown_spine(t.spine) =~= t.spine.head);
        assert(shown_term(t) == shown_spine(t.spine));
    }
}

/// The text of a spine is its head, followed by each argument after a space: a variable alone as it
/// is, and any other term between parentheses.
pub proof fn law_spine_layout(s: IRSpineView)
    ensures
        shown_spine(s) == s.head + arguments_text(s.args, 0),
{
    lemma_args_layout(s.args, 0);
    assert(shown_args(s.args, 0) =~= Seq::empty());
    assert(shown_args(s.args, s.args.len()) =~= arguments_text(s.args, 0));
}

proof fn lemma_params_layout(params: Seq<Seq<char>>, k: nat)
    requires
        k <= params.len(),
    ensures
        shown_params(params, params.len()) == shown_params(params, k) + params_text(params, k),
    decreases params.len() - k,
{
    if k < params.len() {
        lemma_params_layout(params, k + 1);
        lemma_literals();
        let (done, rest) = (shown_params(params, k), params_text(params, k + 1));
        let piece = seq![' '] + params[k as int];
        assert(shown_params(params, k + 1) =~= done + piece);
        assert(done + piece + rest =~= done + (piece + rest));
    } else {
        assert(shown_params(params, k) + params_text(params, k) =~= shown_params(params, k));
    }
}

proof fn lemma_rules_layout(rules: Seq<IRRuleView>, k: nat)
    requires
        k <= rules.len(),
    ensures
        shown_some_rules(rules, rules.len()) == shown_some_rules(rules, k) + rules_text(rules, k),
    decreases rules.len() - k,
{
    if k < rules.len() {
        lemma_rules_layout(rules, k + 1);
        lemma_literals();
        let (done, rest) = (shown_some_rules(rules, k), rules_text(rules, k + 1));
        let piece = (if k > 0 {
            seq![',', ' ']
        } else {
            Seq::empty()
        }) + shown_rule(rules[k as int]);
        assert(shown_some_rules(rules, k + 1) =~= done + piece);
        assert(done + piece + rest =~= done + (piece + rest));
    } else {
        assert(shown_some_rules(rules, k) + rules_text(rules, k) =~= shown_some_rules(rules, k));
    }
}

proof fn lemma_rule_list_layout(rules: Seq<IRRuleView>)
    ensures
        shown_rules(rules) == list_text(rules),
{
    lemma_literals();
    lemma_rules_layout(rules, 0);
    assert(shown_some_rules(rules, 0) + rules_text(rules, 0) =~= rules_text(rules, 0));
}

proof fn lemma_lets_layout(lets: Seq<IRLetView>, k: nat)
    requires
        k <= lets.len(),
    ensures
        shown_lets(lets, lets.len()) == shown_lets(lets, k) + lets_text(lets, k),
    decreases lets.len() - k,
{
    if k < lets.len() {
        lemma_lets_layout(lets, k + 1);
        lemma_literals();
        let l = lets[k as int];
        lemma_rule_list_layout(l.rules);
        let (done, rest) = (shown_lets(lets, k), lets_text(lets, k + 1));
        assert(shown_lets(lets, k + 1) =~= done + let_text(l));
        assert(done + let_text(l) + rest =~= done + (let_text(l) + rest));
    } else {
        assert(shown_lets(lets, k) + lets_text(lets, k) =~= shown_lets(lets, k));
    }
}

/// The text of a term that binds something.
spec fn binder_text(t: IRTermView) -> Seq<char> {
    seq!['λ'] + params_text(t.params, 0) + lets_text(t.lets, 0) + seq![' ', '↦', ' ']
        + shown_spine(t.spine)
}

proof fn lemma_binder_layout(t: IRTermView)
    requires
        t.params.len() > 0 || t.lets.len() > 0,
    ensures
        shown_term(t) == binder_text(t),
{
    lemma_literals();
    lemma_params_layout(t.params, 0);
    lemma_lets_layout(t.lets, 0);
    assert(shown_params(t.params, 0) + params_text(t.params, 0) =~= params_text(t.params, 0));
    assert(shown_lets(t.lets, 0) + lets_text(t.lets, 0) =~= lets_text(t.lets, 0));
}

proof fn lemma_spine(a: IRSpineView, b: IRSpineView, r: Seq<char>, s: Seq<char>)
    requires
        clear_spine(a),
        clear_spine(b),
        shown_spine(a) + r == shown_spine(b) + s,
        spine_ends(r),
        spine_ends(s),
    ensures
        same_spine(a, b),
        r == s,
    decreases a, 1nat, 0nat,
{
    law_spine_layout(a);
    law_spine_layout(b);
    let (x, y) = (arguments_text(a.args, 0) + r, arguments_text(b.args, 0) + s);
    assert(shown_spine(a) + r =~= a.head + x);
    assert(shown_spine(b) + s =~= b.head + y);
    lemma_arguments_start(a.args, 0, r);
    lemma_arguments_start(b.args, 0, s);
    lemma_name(a.head, b.head, x, y);
    lemma_arguments(a.args, b.args, 0, r, s);
}

proof fn lemma_arguments_start(args: Seq<IRTermView>, k: nat, r: Seq<char>)
    requires
        spine_ends(r),
    ensures
        name_ends(arguments_text(args, k) + r),
{
    if k < args.len() {
        assert((arguments_text(args, k) + r)[0] == ' ');
    } else {
        assert(arguments_text(args, k) + r =~= r);
    }
}

/// What stands at the start of an argument.
proof fn lemma_argument_start(args: Seq<IRTermView>, k: nat, r: Seq<char>)
    requires
        k < args.len(),
        clear_term(args[k as int]),
    ensures
        ({
            let text = arguments_text(args, k) + r;
            let t = args[k as int];
            &&& text.len() > 1
            &&& text[0] == ' '
            &&& if t.params.len() == 0 && t.lets.len() == 0 && t.spine.args.len() == 0 {
                !special(text[1])
            } else {
                text[1] == '('
            }
        }),
{
    let t = args[k as int];
    let text = arguments_text(args, k) + r;
    if t.params.len() == 0 && t.lets.len() == 0 && t.spine.args.len() == 0 {
        assert(clear_spine(t.spine));
        assert(text[1] == t.spine.head[0]);
    } else {
        assert(text[1] == '(');
    }
}

proof fn lemma_arguments(
    a: Seq<IRTermView>,
    b: Seq<IRTermView>,
    k: nat,
    r: Seq<char>,
    s: Seq<char>,
)
    requires
        clear_terms(a),
        clear_terms(b),
        k <= a.len(),
        k <= b.len(),
        arguments_text(a, k) + r == arguments_text(b, k) + s,
        spine_ends(r),
        spine_ends(s),
    ensures
        a.len() == b.len(),
        forall|i: int| k <= i < a.len() ==> same_term(#[trigger] a[i], b[i]),
        r == s,
    decreases a, 0nat, a.len() - k,
{
    if k < a.len() {
        lemma_argument_start(a, k, r);
    }
    if k < b.len() {
        lemma_argument_start(b, k, s);
    }
    let (ta, tb) = (arguments_text(a, k) + r, arguments_text(b, k) + s);
    if k >= a.len() {
        assert(ta =~= r);
    }
    if k >= b.len() {
        assert(tb =~= s);
    }
    if k < a.len() && k < b.len() {
        let (t, u) = (a[k as int], b[k as int]);
        let (x, y) = (arguments_text(a, k + 1) + r, arguments_text(b, k + 1) + s);
        lemma_arguments_start(a, k + 1, r);
        lemma_arguments_start(b, k + 1, s);
        if t.params.len() == 0 && t.lets.len() == 0 && t.spine.args.len() == 0 {
            lemma_cat4(seq![' '], t.spine.head, arguments_text(a, k + 1), r);
            lemma_cat4(seq![' '], u.spine.head, arguments_text(b, k + 1), s);
            lemma_split(seq![' '], seq![' '], t.spine.head + x, u.spine.head + y);
            lemma_name(t.spine.head, u.spine.head, x, y);
            assert(t.params =~= u.params);
            assert(same_term(t, u));
        } else {
            let (v, w) = (seq![')'] + x, seq![')'] + y);
            lemma_cat5(seq![' ', '('], shown_term(t), seq![')'], arguments_text(a, k + 1), r);
            lemma_cat5(seq![' ', '('], shown_term(u), seq![')'], arguments_text(b, k + 1), s);
            lemma_split(seq![' ', '('], seq![' ', '('], shown_term(t) + v, shown_term(u) + w);
            lemma_term(t, u, v, w);
            lemma_split(seq![')'], seq![')'], x, y);
        }
        lemma_arguments(a, b, k + 1, r, s);
    }
}

proof fn lemma_term(a: IRTermView, b: IRTermView, r: Seq<char>, s: Seq<char>)
    requires
        clear_term(a),
        clear_term(b),
        shown_term(a) + r == shown_term(b) + s,
        spine_ends(r),
        spine_ends(s),
    ensures
        same_term(a, b),
        r == s,
    decreases a, 1nat, 0nat,
{
    let (ba, bb) = (
        a.params.len() > 0 || a.lets.len() > 0,
        b.params.len() > 0 || b.lets.len() > 0,
    );
    lemma_term_start(a, r);
    lemma_term_start(b, s);
    if ba {
        lemma_binder_layout(a);
        lemma_binder_layout(b);
        let mid = seq![' ', '↦', ' '];
        let (x, y) = (mid + (shown_spine(a.spine) + r), mid + (shown_spine(b.spine) + s));
        let (v, w) = (lets_text(a.lets, 0) + x, lets_text(b.lets, 0) + y);
        lemma_cat6(
            seq!['λ'],
            params_text(a.params, 0),
            lets_text(a.lets, 0),
            mid,
            shown_spine(a.spine),
            r,
        );
        lemma_cat6(
            seq!['λ'],
            params_text(b.params, 0),
            lets_text(b.lets, 0),
            mid,
            shown_spine(b.spine),
            s,
        );
        lemma_split(
            seq!['λ'],
            seq!['λ'],
            params_text(a.params, 0) + v,
            params_text(b.params, 0) + w,
        );
        lemma_lets_start(a.lets, 0, x);
        lemma_lets_start(b.lets, 0, y);
        lemma_params(a.params, b.params, 0, v, w);
        lemma_lets(a.lets, b.lets, 0, x, y);
        lemma_split(mid, mid, shown_spine(a.spine) + r, shown_spine(b.spine) + s);
    } else {
        assert(a.params =~= b.params);
    }
    lemma_spine(a.spine, b.spine, r, s);
}

proof fn lemma_term_start(t: IRTermView, r: Seq<char>)
    requires
        clear_term(t),
    ensures
        (shown_term(t) + r).len() > 0,
        if t.params.len() > 0 || t.lets.len() > 0 {
            (shown_term(t) + r)[0] == 'λ'
        } else {
            !special((shown_term(t) + r)[0])
        },
{
    if t.params.len() > 0 || t.lets.len() > 0 {
        lemma_binder_layout(t);
        assert((binder_text(t) + r)[0] == 'λ');
    } else {
        law_spine_layout(t.spine);
        assert(clear_spine(t.spine));
        assert((shown_term(t) + r)[0] == t.spine.head[0]);
    }
}

/// Whether what comes after the parameters of a term starts here.
spec fn after_params(r: Seq<char>) -> bool {
    r.len() > 1 && (r[0] == ',' || (r[0] == ' ' && r[1] == '↦'))
}

proof fn lemma_lets_start(lets: Seq<IRLetView>, k: nat, r: Seq<char>)
    requires
        r.len() > 1,
        r[0] == ' ',
        r[1] == '↦',
    ensures
        after_params(lets_text(lets, k) + r),
        k < lets.len() ==> (lets_text(lets, k) + r)[0] == ',',
        k >= lets.len() ==> (lets_text(lets, k) + r) == r,
{
    if k < lets.len() {
        assert((lets_text(lets, k) + r)[0] == ',');
    } else {
        assert(lets_text(lets, k) + r =~= r);
    }
}

proof fn lemma_params(
    a: Seq<Seq<char>>,
    b: Seq<Seq<char>>,
    k: nat,
    r: Seq<char>,
    s: Seq<char>,
)
    requires
        clear_names(a),
        clear_names(b),
        k <= a.len(),
        k <= b.len(),
        forall|i: int| 0 <= i < k ==> #[trigger] a[i] == b[i],
        params_text(a, k) + r == params_text(b, k) + s,
        after_params(r),
        after_params(s),
    ensures
        a == b,
        r == s,
    decreases a.len() - k,
{
    let (ta, tb) = (params_text(a, k) + r, params_text(b, k) + s);
    if k < a.len() {
        assert(clear_name(a[k as int]));
        assert(ta[0] == ' ' && ta[1] == a[k as int][0]);
    } else {
        assert(ta =~= r);
    }
    if k < b.len() {
        assert(clear_name(b[k as int]));
        assert(tb[0] == ' ' && tb[1] == b[k as int][0]);
    } else {
        assert(tb =~= s);
    }
    if k < a.len() && k < b.len() {
        let (x, y) = (params_text(a, k + 1) + r, params_text(b, k + 1) + s);
        assert(ta =~= seq![' '] + (a[k as int] + x));
        assert(tb =~= seq![' '] + (b[k as int] + y));
        lemma_split(seq![' '], seq![' '], a[k as int] + x, b[k as int] + y);
        lemma_params_start(a, k + 1, r);
        lemma_params_start(b, k + 1, s);
        lemma_name(a[k as int], b[k as int], x, y);
        lemma_params(a, b, k + 1, r, s);
    } else {
        assert(a =~= b);
    }
}

proof fn lemma_params_start(params: Seq<Seq<char>>, k: nat, r: Seq<char>)
    requires
        after_params(r),
    ensures
        name_ends(params_text(params, k) + r),
{
    if k < params.len() {
        assert((params_text(params, k) + r)[0] == ' ');
    } else {
        assert(params_text(params, k) + r =~= r);
    }
}

proof fn lemma_lets(
    a: Seq<IRLetView>,
    b: Seq<IRLetView>,
    k: nat,
    r: Seq<char>,
    s: Seq<char>,
)
    requires
        clear_lets(a),
        clear_lets(b),
        k <= a.len(),
        k <= b.len(),
        lets_text(a, k) + r == lets_text(b, k) + s,
        r.len() > 1 && r[0] == ' ' && r[1] == '↦',
        s.len() > 1 && s[0] == ' ' && s[1] == '↦',
    ensures
        a.len() == b.len(),
        forall|i: int| k <= i < a.len() ==> same_let(#[trigger] a[i], b[i]),
        r == s,
    decreases a, 0nat, a.len() - k,
{
    lemma_lets_start(a, k, r);
    lemma_lets_start(b, k, s);
    if k < a.len() && k < b.len() {
        let (l, m) = (a[k as int], b[k as int]);
        assert(clear_let(l) && clear_let(m));
        let (x, y) = (lets_text(a, k + 1) + r, lets_text(b, k + 1) + s);
        lemma_cat3(let_text(l), lets_text(a, k + 1), r);
        lemma_cat3(let_text(m), lets_text(b, k + 1), s);
        lemma_let(l, m, x, y);
        lemma_lets(a, b, k + 1, r, s);
    }
}

proof fn lemma_let(l: IRLetView, m: IRLetView, x: Seq<char>, y: Seq<char>)
    requires
        clear_let(l),
        clear_let(m),
        let_text(l) + x == let_text(m) + y,
    ensures
        same_let(l, m),
        x == y,
    decreases l, 2nat, 0nat,
{
    let (open, mid) = (seq![',', ' '], seq![' ', ':', '=', ' ']);
    let (p, q) = (list_text(l.rules) + x, list_text(m.rules) + y);
    lemma_cat5(open, l.name, mid, list_text(l.rules), x);
    lemma_cat5(open, m.name, mid, list_text(m.rules), y);
    lemma_split(open, open, l.name + (mid + p), m.name + (mid + q));
    assert((mid + p)[0] == ' ' && (mid + q)[0] == ' ');
    lemma_name(l.name, m.name, mid + p, mid + q);
    lemma_split(mid, mid, p, q);
    lemma_rule_list(l.rules, m.rules, x, y);
}

proof fn lemma_rule(p: IRRuleView, q: IRRuleView, x: Seq<char>, y: Seq<char>)
    requires
        clear_rule(p),
        clear_rule(q),
        shown_rule(p) + x == shown_rule(q) + y,
        spine_ends(x),
        spine_ends(y),
    ensures
        same_rule(p, q),
        x == y,
    decreases p, 2nat, 0nat,
{
    lemma_literals();
    let mid = seq![' ', '↦', ' '];
    let (v, w) = (mid + (shown_spine(p.rhs) + x), mid + (shown_spine(q.rhs) + y));
    lemma_cat4(shown_spine(p.lhs), mid, shown_spine(p.rhs), x);
    lemma_cat4(shown_spine(q.lhs), mid, shown_spine(q.rhs), y);
    assert(v[0] == ' ' && v[1] == '↦' && w[0] == ' ' && w[1] == '↦');
    lemma_spine(p.lhs, q.lhs, v, w);
    lemma_split(mid, mid, shown_spine(p.rhs) + x, shown_spine(q.rhs) + y);
    lemma_spine(p.rhs, q.rhs, x, y);
}

proof fn lemma_rule_list(
    a: Seq<IRRuleView>,
    b: Seq<IRRuleView>,
    r: Seq<char>,
    s: Seq<char>,
)
    requires
        clear_rules(a),
        clear_rules(b),
        list_text(a) + r == list_text(b) + s,
    ensures
        same_rules(a, b),
        r == s,
    decreases a, 1nat, 0nat,
{
    let (x, y) = (seq![']'] + r, seq![']'] + s);
    lemma_cat4(seq!['['], rules_text(a, 0), seq![']'], r);
    lemma_cat4(seq!['['], rules_text(b, 0), seq![']'], s);
    lemma_split(seq!['['], seq!['['], rules_text(a, 0) + x, rules_text(b, 0) + y);
    lemma_rules(a, b, 0, x, y);
    lemma_split(seq![']'], seq![']'], r, s);
}

proof fn lemma_rules_start(rules: Seq<IRRuleView>, k: nat, r: Seq<char>)
    requires
        clear_rules(rules),
        r.len() > 0,
        r[0] == ']',
    ensures
        ({
            let text = rules_text(rules, k) + r;
            &&& text.len() > 0
            &&& k >= rules.len() ==> text == r
            &&& k < rules.len() && k > 0 ==> text[0] == ','
            &&& k < rules.len() && k == 0 ==> !special(text[0])
        }),
{
    let text = rules_text(rules, k) + r;
    if k >= rules.len() {
        assert(text =~= r);
    } else if k > 0 {
        assert(text[0] == ',');
    } else {
        let rule = rules[0];
        assert(clear_rule(rule));
        law_spine_layout(rule.lhs);
        assert(text[0] == rule.lhs.head[0]);
    }
}

#[verifier::spinoff_prover]
#[verifier::rlimit(60)]
proof fn lemma_rules(
    a: Seq<IRRuleView>,
    b: Seq<IRRuleView>,
    k: nat,
    r: Seq<char>,
    s: Seq<char>,
)
    requires
        clear_rules(a),
        clear_rules(b),
        k <= a.len(),
        k <= b.len(),
        rules_text(a, k) + r == rules_text(b, k) + s,
        r.len() > 0 && r[0] == ']',
        s.len() > 0 && s[0] == ']',
    ensures
        a.len() == b.len(),
        forall|i: int| k <= i < a.len() ==> same_rule(#[trigger] a[i], b[i]),
        r == s,
    decreases a, 0nat, a.len() - k,
{
    lemma_rules_start(a, k, r);
    lemma_rules_start(b, k, s);
    if k < a.len() && k < b.len() {
        let (p, q) = (a[k as int], b[k as int]);
        assert(clear_rule(p) && clear_rule(q));
        let (x, y) = (rules_text(a, k + 1) + r, rules_text(b, k + 1) + s);
        lemma_rules_start(a, k + 1, r);
        lemma_rules_start(b, k + 1, s);
        let open = if k > 0 {
            seq![',', ' ']
        } else {
            Seq::empty()
        };
        lemma_cat4(open, shown_rule(p), rules_text(a, k + 1), r);
        lemma_cat4(open, shown_rule(q), rules_text(b, k + 1), s);
        lemma_split(open, open, shown_rule(p) + x, shown_rule(q) + y);
        lemma_rule(p, q, x, y);
        lemma_rules(a, b, k + 1, r, s);
    }
}

/// Spines with the same text have the same head and the same arguments, where all names are clear.
pub proof fn law_spine_legible(a: IRSpineView, b: IRSpineView)
    requires
        clear_spine(a),
        clear_spine(b),
        shown_spine(a) == shown_spine(b),
    ensures
        same_spine(a, b),
{
    let none = Seq::<char>::empty();
    assert(shown_spine(a) + none =~= shown_spine(a));
    assert(shown_spine(b) + none =~= shown_spine(b));
    lemma_spine(a, b, none, none);
}

/// Terms with the same text bind the same and have the same spine, where all names are clear.
pub proof fn law_term_legible(a: IRTermView, b: IRTermView)
    requires
        clear_term(a),
        clear_term(b),
        shown_term(a) == shown_term(b),
    ensures
        same_term(a, b),
{
    let none = Seq::<char>::empty();
    assert(shown_term(a) + none =~= shown_term(a));
    assert(shown_term(b) + none =~= shown_term(b));
    lemma_term(a, b, none, none);
}

/// Rules with the same text have the same sides, where all names are clear.
pub proof fn law_rule_legible(a: IRRuleView, b: IRRuleView)
    requires
        clear_rule(a),
        clear_rule(b),
        shown_rule(a) == shown_rule(b),
    ensures
        same_rule(a, b),
{
    lemma_literals();
    let mid = seq![' ', '↦', ' '];
    let none = Seq::<char>::empty();
    let (v, w) = (mid + shown_spine(a.rhs), mid + shown_spine(b.rhs));
    assert(shown_rule(a) =~= shown_spine(a.lhs) + v);
    assert(shown_rule(b) =~= shown_spine(b.lhs) + w);
    assert(v[0] == ' ' && v[1] == '↦' && w[0] == ' ' && w[1] == '↦');
    lemma_spine(a.lhs, b.lhs, v, w);
    lemma_split(mid, mid, shown_spine(a.rhs), shown_spine(b.rhs));
    law_spine_legible(a.rhs, b.rhs);
}

/// The number of parameters and let declarations of a type.
spec fn binders(t: IRTypeView) -> nat {
    t.params.len() + t.lets.len()
}

/// What is known of the type of the `k`th parameter or let declaration.
spec fn binder_type(t: IRTypeView, k: int) -> Option<IRTypeView> {
    if k < t.params.len() {
        t.params[k]
    } else {
        t.lets[k - t.params.len()]
    }
}

/// The name of the `k`th parameter or let declaration.
spec fn binder_name(t: IRTypeView, k: int) -> Seq<char> {
    if k < t.params.len() {
        t.codomain.params[k]
    } else {
        t.codomain.lets[k - t.params.len()].name
    }
}

/// What follows the type of the `k`th parameter or let declaration.
spec fn binder_rules(t: IRTypeView, k: int) -> Seq<char> {
    if k < t.params.len() {
        Seq::empty()
    } else {
        seq![' ', ':', '=', ' '] + list_text(t.codomain.lets[k - t.params.len()].rules)
    }
}

/// The texts of the parameters and let declarations from the `k`th on.
spec fn binders_text(t: IRTypeView, sep: Seq<char>, k: nat) -> Seq<char>
    decreases binders(t) - k,
{
    if k >= binders(t) {
        Seq::empty()
    } else {
        seq!['('] + binder_name(t, k as int) + seq![' ', ':', ' '] + shown_option(
            binder_type(t, k as int),
        ) + binder_rules(t, k as int) + (seq![')', ' ', '→'] + sep) + binders_text(t, sep, k + 1)
    }
}

proof fn lemma_type_params_layout(t: IRTypeView, sep: Seq<char>, k: nat)
    requires
        clear_type(t),
        k <= t.params.len(),
    ensures
        shown_typed_params(t.params, t.codomain.params, sep, k) + binders_text(t, sep, k)
            == binders_text(t, sep, 0),
    decreases k,
{
    lemma_literals();
    if k > 0 {
        lemma_type_params_layout(t, sep, (k - 1) as nat);
        let done = shown_typed_params(t.params, t.codomain.params, sep, (k - 1) as nat);
        let rest = binders_text(t, sep, k);
        let (name, typ) = (t.codomain.params[k - 1], shown_option(t.params[k - 1]));
        let (open, mid, end) = (seq!['('], seq![' ', ':', ' '], seq![')', ' ', '→']);
        let piece = open + name + mid + typ + end + sep;
        assert(shown_typed_params(t.params, t.codomain.params, sep, k) == done + piece);
        lemma_cat3(open + name + mid + typ, end, sep);
        let none = Seq::<char>::empty();
        assert(open + name + mid + typ + none =~= open + name + mid + typ);
        assert(binders_text(t, sep, (k - 1) as nat) == piece + rest);
        lemma_cat3(done, piece, rest);
    } else {
        assert(shown_typed_params(t.params, t.codomain.params, sep, 0) + binders_text(t, sep, 0)
            =~= binders_text(t, sep, 0));
    }
}

proof fn lemma_type_lets_layout(t: IRTypeView, sep: Seq<char>, k: nat)
    requires
        clear_type(t),
        k <= t.lets.len(),
    ensures
        shown_typed_lets(t.lets, t.codomain.lets, sep, k) + binders_text(
            t,
            sep,
            t.params.len() + k,
        ) == binders_text(t, sep, t.params.len()),
    decreases k,
{
    lemma_literals();
    if k > 0 {
        lemma_type_lets_layout(t, sep, (k - 1) as nat);
        let done = shown_typed_lets(t.lets, t.codomain.lets, sep, (k - 1) as nat);
        let at = (t.params.len() + k - 1) as nat;
        let rest = binders_text(t, sep, at + 1);
        lemma_rule_list_layout(t.codomain.lets[k - 1].rules);
        let (name, typ) = (t.codomain.lets[k - 1].name, shown_option(t.lets[k - 1]));
        let (open, mid, end) = (seq!['('], seq![' ', ':', ' '], seq![')', ' ', '→']);
        let (def, list) = (seq![' ', ':', '=', ' '], list_text(t.codomain.lets[k - 1].rules));
        let piece = open + name + mid + typ + def + list + end + sep;
        assert(shown_typed_lets(t.lets, t.codomain.lets, sep, k) == done + piece);
        lemma_cat3(open + name + mid + typ, def, list);
        lemma_cat3(open + name + mid + typ + def + list, end, sep);
        assert(binders_text(t, sep, at) == piece + rest);
        lemma_cat3(done, piece, rest);
    } else {
        assert(shown_typed_lets(t.lets, t.codomain.lets, sep, 0) + binders_text(
            t,
            sep,
            t.params.len(),
        ) =~= binders_text(t, sep, t.params.len()));
    }
}

proof fn lemma_type_layout(t: IRTypeView, sep: Seq<char>)
    requires
        clear_type(t),
    ensures
        shown_type(t, sep) == binders_text(t, sep, 0) + shown_spine(t.codomain.spine),
{
    lemma_type_params_layout(t, sep, t.params.len());
    lemma_type_lets_layout(t, sep, t.lets.len());
    let ps = shown_typed_params(t.params, t.codomain.params, sep, t.params.len());
    let ls = shown_typed_lets(t.lets, t.codomain.lets, sep, t.lets.len());
    assert(binders_text(t, sep, binders(t)) =~= Seq::empty());
    assert(ls + binders_text(t, sep, binders(t)) =~= ls);
    assert(ps + ls == binders_text(t, sep, 0));
}

proof fn lemma_type(
    a: IRTypeView,
    b: IRTypeView,
    sep: Seq<char>,
    r: Seq<char>,
    s: Seq<char>,
)
    requires
        clear_type(a),
        clear_type(b),
        shown_type(a, sep) + r == shown_type(b, sep) + s,
        spine_ends(r),
        spine_ends(s),
    ensures
        same_type(a, b),
        r == s,
    decreases a, 2nat, 0nat,
{
    lemma_type_layout(a, sep);
    lemma_type_layout(b, sep);
    let (x, y) = (shown_spine(a.codomain.spine) + r, shown_spine(b.codomain.spine) + s);
    lemma_cat3(binders_text(a, sep, 0), shown_spine(a.codomain.spine), r);
    lemma_cat3(binders_text(b, sep, 0), shown_spine(b.codomain.spine), s);
    assert(clear_term(a.codomain) && clear_term(b.codomain));
    lemma_binders(a, b, sep, 0, r, s);
    lemma_same_binders(a, b);
}

proof fn lemma_same_binders(a: IRTypeView, b: IRTypeView)
    requires
        clear_type(a),
        clear_type(b),
        binders(a) == binders(b),
        forall|i: int| 0 <= i < binders(a) ==> #[trigger] same_binder(a, b, i),
        same_spine(a.codomain.spine, b.codomain.spine),
    ensures
        same_type(a, b),
{
    assert(a.params.len() == b.params.len()) by {
        if a.params.len() < b.params.len() {
            assert(same_binder(a, b, a.params.len() as int));
        } else if b.params.len() < a.params.len() {
            assert(same_binder(a, b, b.params.len() as int));
        }
    }
    let n = a.params.len();
    assert forall|i: int| 0 <= i < n implies #[trigger] a.codomain.params[i]
        == b.codomain.params[i] by {
        assert(same_binder(a, b, i));
    }
    assert(a.codomain.params =~= b.codomain.params);
    assert forall|i: int| 0 <= i < n implies same_option(#[trigger] a.params[i], b.params[i]) by {
        assert(same_binder(a, b, i));
    }
    assert forall|i: int| 0 <= i < a.lets.len() implies same_option(
        #[trigger] a.lets[i],
        b.lets[i],
    ) by {
        assert(same_binder(a, b, n + i));
    }
    assert forall|i: int| 0 <= i < a.codomain.lets.len() implies same_let(
        #[trigger] a.codomain.lets[i],
        b.codomain.lets[i],
    ) by {
        assert(same_binder(a, b, n + i));
    }
    assert(same_options(a.params, b.params));
    assert(same_options(a.lets, b.lets));
    assert(same_lets(a.codomain.lets, b.codomain.lets));
}

/// Whether the `k`th parameters or let declarations are the same.
spec fn same_binder(a: IRTypeView, b: IRTypeView, k: int) -> bool {
    &&& k < a.params.len() <==> k < b.params.len()
    &&& binder_name(a, k) == binder_name(b, k)
    &&& same_option(binder_type(a, k), binder_type(b, k))
    &&& k >= a.params.len() ==> same_rules(
        a.codomain.lets[k - a.params.len()].rules,
        b.codomain.lets[k - b.params.len()].rules,
    )
}

proof fn lemma_clear_binder(t: IRTypeView, k: int)
    requires
        clear_type(t),
        0 <= k < binders(t),
    ensures
        clear_name(binder_name(t, k)),
        clear_option(binder_type(t, k)),
        k >= t.params.len() ==> clear_rules(t.codomain.lets[k - t.params.len()].rules),
{
    assert(clear_term(t.codomain));
    if k < t.params.len() {
        assert(clear_option(t.params[k]));
        assert(clear_name(t.codomain.params[k]));
    } else {
        assert(clear_option(t.lets[k - t.params.len()]));
        assert(clear_let(t.codomain.lets[k - t.params.len()]));
    }
}

#[verifier::spinoff_prover]
#[verifier::rlimit(80)]
proof fn lemma_binders(
    a: IRTypeView,
    b: IRTypeView,
    sep: Seq<char>,
    k: nat,
    r: Seq<char>,
    s: Seq<char>,
)
    requires
        clear_type(a),
        clear_type(b),
        k <= binders(a),
        k <= binders(b),
        binders_text(a, sep, k) + (shown_spine(a.codomain.spine) + r) == binders_text(b, sep, k) + (
        shown_spine(b.codomain.spine) + s),
        spine_ends(r),
        spine_ends(s),
    ensures
        binders(a) == binders(b),
        forall|i: int| k <= i < binders(a) ==> #[trigger] same_binder(a, b, i),
        same_spine(a.codomain.spine, b.codomain.spine),
        r == s,
    decreases a, 1nat, binders(a) - k,
{
    let (x, y) = (shown_spine(a.codomain.spine) + r, shown_spine(b.codomain.spine) + s);
    let (ta, tb) = (binders_text(a, sep, k) + x, binders_text(b, sep, k) + y);
    assert(clear_term(a.codomain) && clear_term(b.codomain));
    assert(clear_spine(a.codomain.spine) && clear_spine(b.codomain.spine));
    law_spine_layout(a.codomain.spine);
    law_spine_layout(b.codomain.spine);
    if k < binders(a) {
        assert(ta[0] == '(');
    } else {
        assert(ta =~= x);
        assert(ta[0] == a.codomain.spine.head[0]);
    }
    if k < binders(b) {
        assert(tb[0] == '(');
    } else {
        assert(tb =~= y);
        assert(tb[0] == b.codomain.spine.head[0]);
    }
    if k < binders(a) && k < binders(b) {
        let i = k as int;
        lemma_clear_binder(a, i);
        lemma_clear_binder(b, i);
        let close = seq![')', ' ', '→'] + sep;
        let (v, w) = (close + (binders_text(a, sep, k + 1) + x), close + (binders_text(
            b,
            sep,
            k + 1,
        ) + y));
        let (p, q) = (binder_rules(a, i) + v, binder_rules(b, i) + w);
        let mid = seq![' ', ':', ' '];
        let (oa, ob) = (shown_option(binder_type(a, i)), shown_option(binder_type(b, i)));
        lemma_cat8(
            seq!['('],
            binder_name(a, i),
            mid,
            oa,
            binder_rules(a, i),
            close,
            binders_text(a, sep, k + 1),
            x,
        );
        lemma_cat8(
            seq!['('],
            binder_name(b, i),
            mid,
            ob,
            binder_rules(b, i),
            close,
            binders_text(b, sep, k + 1),
            y,
        );
        lemma_split(
            seq!['('],
            seq!['('],
            binder_name(a, i) + (mid + (oa + p)),
            binder_name(b, i) + (mid + (ob + q)),
        );
        assert((mid + (oa + p))[0] == ' ' && (mid + (ob + q))[0] == ' ');
        lemma_name(binder_name(a, i), binder_name(b, i), mid + (oa + p), mid + (ob + q));
        lemma_split(mid, mid, oa + p, ob + q);
        if i < a.params.len() {
            assert(p =~= v);
            assert(p[0] == ')');
        } else {
            assert(p[0] == ' ' && p[1] == ':');
        }
        if i < b.params.len() {
            assert(q =~= w);
            assert(q[0] == ')');
        } else {
            assert(q[0] == ' ' && q[1] == ':');
        }
        lemma_option(binder_type(a, i), binder_type(b, i), p, q);
        if i >= a.params.len() {
            let (l, m) = (
                a.codomain.lets[i - a.params.len()].rules,
                b.codomain.lets[i - b.params.len()].rules,
            );
            let open = seq![' ', ':', '=', ' '];
            let (c, d) = (list_text(l) + v, list_text(m) + w);
            lemma_cat3(open, list_text(l), v);
            lemma_cat3(open, list_text(m), w);
            lemma_split(open, open, c, d);
            lemma_rule_list(l, m, v, w);
        }
        lemma_split(close, close, binders_text(a, sep, k + 1) + x, binders_text(b, sep, k + 1) + y);
        assert(same_binder(a, b, i));
        lemma_binders(a, b, sep, k + 1, r, s);
    } else {
        lemma_spine(a.codomain.spine, b.codomain.spine, r, s);
    }
}

proof fn lemma_option(
    a: Option<IRTypeView>,
    b: Option<IRTypeView>,
    r: Seq<char>,
    s: Seq<char>,
)
    requires
        clear_option(a),
        clear_option(b),
        shown_option(a) + r == shown_option(b) + s,
        spine_ends(r),
        spine_ends(s),
    ensures
        same_option(a, b),
        r == s,
    decreases a, 3nat, 0nat,
{
    lemma_literals();
    lemma_option_start(a, r);
    lemma_option_start(b, s);
    match (a, b) {
        (Some(x), Some(y)) => {
            lemma_type(x, y, " "@, r, s);
        },
        (None, None) => {
            lemma_split(seq!['*'], seq!['*'], r, s);
        },
        _ => {},
    }
}

proof fn lemma_option_start(t: Option<IRTypeView>, r: Seq<char>)
    requires
        clear_option(t),
    ensures
        (shown_option(t) + r).len() > 0,
        (shown_option(t) + r)[0] == '*' <==> t is None,
{
    lemma_literals();
    match t {
        None => {
            assert((shown_option(t) + r)[0] == '*');
        },
        Some(x) => {
            assert(clear_type(x));
            lemma_type_layout(x, " "@);
            assert(clear_term(x.codomain));
            assert(clear_spine(x.codomain.spine));
            law_spine_layout(x.codomain.spine);
            if binders(x) > 0 {
                assert((shown_option(t) + r)[0] == '(');
            } else {
                assert((shown_option(t) + r)[0] == x.codomain.spine.head[0]);
            }
        },
    }
}

/// Types with the same text have the same parameters and let declarations, with the same types, and
/// the same codomain, where all names are clear.
pub proof fn law_type_legible(a: IRTypeView, b: IRTypeView, sep: Seq<char>)
    requires
        clear_type(a),
        clear_type(b),
        shown_type(a, sep) == shown_type(b, sep),
    ensures
        same_type(a, b),
{
    let none = Seq::<char>::empty();
    assert(shown_type(a, sep) + none =~= shown_type(a, sep));
    assert(shown_type(b, sep) + none =~= shown_type(b, sep));
    lemma_type(a, b, sep, none, none);
}

} // verus!
