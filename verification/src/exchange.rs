//! Reading what Lean hands over.
use crate::data::strings;
use crate::ids::Fault;
use crate::ir::{
    irtype_view, let_view, let_views, option_view, option_views, rule_view, rule_views, spine_view,
    term_view, term_views, var_names, IRLet, IRLetView, IRRule, IRRuleView, IRSpine, IRSpineView,
    IRTerm, IRTermView, IRType, IRTypeView, IRVar,
};
use crate::lean::{
    lean_unbox, LeanArrayObject, LeanLet, LeanOption, LeanRule, LeanSpine, LeanStringObject,
    LeanTerm, LeanType, LeanVar, ARRAY_TAG, STRING_TAG,
};
use crate::shown::{lemma_let_views, lemma_option_views, lemma_rule_views, lemma_term_views};
use vstd::prelude::*;

verus! {

/// The place of the first NUL in `s` from the `k`th character on, or the length of `s`.
pub open spec fn nul_from(s: Seq<char>, k: nat) -> nat
    decreases s.len() - k,
{
    if k >= s.len() {
        s.len()
    } else if s[k as int] == '\0' {
        k
    } else {
        nul_from(s, k + 1)
    }
}

/// The text of a string that ends at its first NUL.
pub open spec fn c_text(s: Seq<char>) -> Seq<char> {
    s.take(nul_from(s, 0) as int)
}

/// Whether the object is tagged as a string.
pub open spec fn string_ok(s: LeanStringObject) -> bool {
    s.m_header.m_tag == STRING_TAG
}

/// Whether the object is tagged as an array, of as many items as there are.
pub open spec fn array_ok(a: LeanArrayObject, len: nat) -> bool {
    a.m_header.m_tag == ARRAY_TAG && a.m_size == len
}

/// Whether all of the objects are tagged as strings.
pub open spec fn strings_ok(items: Seq<LeanStringObject>) -> bool {
    forall|i: int| 0 <= i < items.len() ==> #[trigger] string_ok(items[i])
}

/// The texts of strings.
pub open spec fn texts(items: Seq<LeanStringObject>) -> Seq<Seq<char>> {
    items.map_values(|s: LeanStringObject| c_text(s.m_data@))
}

/// The place of the first NUL.
fn first_nul(s: &String) -> (r: usize)
    ensures
        r == nul_from(s@, 0),
        r <= s@.len(),
{
    let text = s.as_str();
    let len: usize = text.unicode_len();
    let mut i: usize = 0;
    while i < len
        invariant
            i <= len,
            len == s@.len(),
            text@ == s@,
            nul_from(s@, 0) == nul_from(s@, i as nat),
        decreases len - i,
    {
        if text.get_char(i) == '\0' {
            return i;
        }
        i = i + 1;
    }
    len
}

/// Whether `s` holds a NUL.
pub fn has_nul(s: &String) -> (r: bool)
    ensures
        r == s@.contains('\0'),
{
    let i: usize = first_nul(s);
    proof {
        lemma_first_nul(s@, 0);
    }
    i < s.as_str().unicode_len()
}

pub proof fn lemma_first_nul(s: Seq<char>, k: nat)
    requires
        k <= s.len(),
    ensures
        k <= nul_from(s, k) <= s.len(),
        nul_from(s, k) < s.len() ==> s[nul_from(s, k) as int] == '\0',
        forall|i: int| k <= i < nul_from(s, k) ==> s[i] != '\0',
    decreases s.len() - k,
{
    if k < s.len() && s[k as int] != '\0' {
        lemma_first_nul(s, k + 1);
    }
}

/// Reads a string.
pub fn to_string(s: &LeanStringObject) -> (r: Result<String, Fault>)
    ensures
        r is Ok <==> string_ok(*s),
        r matches Ok(x) ==> x@ == c_text(s.m_data@),
        r matches Err(f) ==> f == Fault::Malformed,
{
    if s.m_header.m_tag != STRING_TAG {
        return Err(Fault::Malformed);
    }
    let end: usize = first_nul(&s.m_data);
    Ok(String::from_str(s.m_data.as_str().substring_char(0, end)))
}

/// Whether the array can be read.
fn to_vec(a: &LeanArrayObject, len: usize) -> (r: bool)
    ensures
        r == array_ok(*a, len as nat),
{
    a.m_header.m_tag == ARRAY_TAG && a.m_size == len
}

/// Reads an array of strings.
fn to_strings(a: &LeanArrayObject, items: &Vec<LeanStringObject>) -> (r: Result<
    Vec<String>,
    Fault,
>)
    ensures
        r is Ok <==> array_ok(*a, items@.len()) && strings_ok(items@),
        r matches Ok(x) ==> strings(x@) == texts(items@),
        r matches Err(f) ==> f == Fault::Malformed,
{
    if !to_vec(a, items.len()) {
        return Err(Fault::Malformed);
    }
    let mut out: Vec<String> = Vec::new();
    let mut i: usize = 0;
    while i < items.len()
        invariant
            i <= items@.len(),
            out@.len() == i,
            forall|j: int| 0 <= j < i ==> #[trigger] string_ok(items@[j]),
            forall|j: int| 0 <= j < i ==> (#[trigger] out@[j])@ == c_text(items@[j].m_data@),
        decreases items@.len() - i,
    {
        match to_string(&items[i]) {
            Err(f) => {
                assert(!string_ok(items@[i as int]));
                return Err(f);
            },
            Ok(s) => out.push(s),
        }
        i = i + 1;
    }
    assert(strings(out@) =~= texts(items@));
    Ok(out)
}

/// Reads a variable.
pub fn to_ir_var(v: &LeanVar) -> (r: Result<IRVar, Fault>)
    ensures
        r is Ok <==> string_ok(*v),
        r matches Ok(x) ==> x.name@ == c_text(v.m_data@),
        r matches Err(f) ==> f == Fault::Malformed,
{
    match to_string(v) {
        Err(f) => Err(f),
        Ok(name) => Ok(IRVar { name }),
    }
}

/// Reads an array of variables.
fn to_ir_vars(a: &LeanArrayObject, items: &Vec<LeanVar>) -> (r: Result<Vec<IRVar>, Fault>)
    ensures
        r is Ok <==> array_ok(*a, items@.len()) && strings_ok(items@),
        r matches Ok(x) ==> var_names(x@) == texts(items@),
        r matches Err(f) ==> f == Fault::Malformed,
{
    if !to_vec(a, items.len()) {
        return Err(Fault::Malformed);
    }
    let mut out: Vec<IRVar> = Vec::new();
    let mut i: usize = 0;
    while i < items.len()
        invariant
            i <= items@.len(),
            out@.len() == i,
            forall|j: int| 0 <= j < i ==> #[trigger] string_ok(items@[j]),
            forall|j: int| 0 <= j < i ==> (#[trigger] out@[j]).name@ == c_text(items@[j].m_data@),
        decreases items@.len() - i,
    {
        match to_ir_var(&items[i]) {
            Err(f) => {
                assert(!string_ok(items@[i as int]));
                return Err(f);
            },
            Ok(v) => out.push(v),
        }
        i = i + 1;
    }
    assert(var_names(out@) =~= texts(items@));
    Ok(out)
}

/// Whether the spine can be read.
pub open spec fn spine_readable(s: LeanSpine) -> bool
    decreases s, 0nat,
{
    &&& string_ok(s.head)
    &&& array_ok(s.args, s.args_items@.len())
    &&& terms_readable(s.args_items@, s.args_items@.len())
}

/// Whether the term can be read.
pub open spec fn term_readable(t: LeanTerm) -> bool
    decreases t, 0nat,
{
    &&& array_ok(t.params, t.params_items@.len())
    &&& strings_ok(t.params_items@)
    &&& array_ok(t.lets, t.lets_items@.len())
    &&& lets_readable(t.lets_items@, t.lets_items@.len())
    &&& spine_readable(t.spine)
}

/// Whether the let declaration can be read.
pub open spec fn let_readable(l: LeanLet) -> bool
    decreases l, 0nat,
{
    &&& string_ok(l.var)
    &&& array_ok(l.rules, l.rules_items@.len())
    &&& rules_readable(l.rules_items@, l.rules_items@.len())
}

/// Whether the rule can be read.
pub open spec fn rule_readable(r: LeanRule) -> bool
    decreases r, 0nat,
{
    &&& spine_readable(r.lhs)
    &&& spine_readable(r.rhs)
    &&& array_ok(r.attribution, r.attribution_items@.len())
    &&& strings_ok(r.attribution_items@)
}

/// What is read of a spine. The rules that justify its premises are left out.
pub open spec fn spine_read(s: LeanSpine) -> IRSpineView
    decreases s, 0nat,
{
    IRSpineView {
        head: c_text(s.head.m_data@),
        args: terms_read(s.args_items@, s.args_items@.len()),
        premise_rules: Seq::empty(),
    }
}

/// What is read of a term. The rules that justify its goal are left out.
pub open spec fn term_read(t: LeanTerm) -> IRTermView
    decreases t, 0nat,
{
    IRTermView {
        params: texts(t.params_items@),
        lets: lets_read(t.lets_items@, t.lets_items@.len()),
        spine: spine_read(t.spine),
        goal_rules: Seq::empty(),
    }
}

/// What is read of a let declaration.
pub open spec fn let_read(l: LeanLet) -> IRLetView
    decreases l, 0nat,
{
    IRLetView {
        name: c_text(l.var.m_data@),
        rules: rules_read(l.rules_items@, l.rules_items@.len()),
    }
}

/// What is read of a rule.
pub open spec fn rule_read(r: LeanRule) -> IRRuleView
    decreases r, 0nat,
{
    IRRuleView {
        lhs: spine_read(r.lhs),
        rhs: spine_read(r.rhs),
        attribution: texts(r.attribution_items@),
        is_redex: r.is_redex,
    }
}

/// Whether the first `k` terms can be read.
pub open spec fn terms_readable(items: Seq<LeanTerm>, k: nat) -> bool
    decreases items, k,
{
    k == 0 || k > items.len() || (terms_readable(items, (k - 1) as nat) && term_readable(items[k - 1]))
}

/// What is read of the first `k` terms.
pub open spec fn terms_read(items: Seq<LeanTerm>, k: nat) -> Seq<IRTermView>
    decreases items, k,
{
    if k == 0 || k > items.len() {
        Seq::empty()
    } else {
        terms_read(items, (k - 1) as nat).push(term_read(items[k - 1]))
    }
}

proof fn lemma_terms_unreadable(items: Seq<LeanTerm>, k: nat, n: nat)
    requires
        k <= n <= items.len(),
        !terms_readable(items, k),
    ensures
        !terms_readable(items, n),
    decreases n - k,
{
    if k < n {
        lemma_terms_unreadable(items, k, (n - 1) as nat);
    }
}

proof fn lemma_term_pushed(vs: Seq<IRTerm>, v: IRTerm)
    ensures
        term_views(vs.push(v), vs.len() + 1) == term_views(vs, vs.len()).push(term_view(v)),
{
    lemma_term_views(vs, vs.len());
    lemma_term_views(vs.push(v), vs.len());
    assert(term_views(vs.push(v), vs.len()) =~= term_views(vs, vs.len()));
}

/// Reads an array of terms.
fn to_ir_terms(a: &LeanArrayObject, items: &Vec<LeanTerm>) -> (r: Result<Vec<IRTerm>, Fault>)
    ensures
        r is Ok <==> array_ok(*a, items@.len()) && terms_readable(items@, items@.len()),
        r matches Ok(x) ==> term_views(x@, x@.len()) == terms_read(items@, items@.len()),
        r matches Err(f) ==> f == Fault::Malformed,
    decreases items@, items@.len() + 1,
{
    if !to_vec(a, items.len()) {
        return Err(Fault::Malformed);
    }
    let mut out: Vec<IRTerm> = Vec::new();
    let mut i: usize = 0;
    while i < items.len()
        invariant
            i <= items@.len(),
            out@.len() == i,
            terms_readable(items@, i as nat),
            term_views(out@, out@.len()) == terms_read(items@, i as nat),
        decreases items@.len() - i,
    {
        assert(decreases_to!(items@ => items@[i as int]));
        match to_ir_term(&items[i]) {
            Err(f) => {
                proof {
                    lemma_terms_unreadable(items@, (i + 1) as nat, items@.len());
                }
                return Err(f);
            },
            Ok(v) => {
                proof {
                    lemma_term_pushed(out@, v);
                }
                out.push(v);
            },
        }
        i = i + 1;
    }
    Ok(out)
}

/// Whether the first `k` let declarations can be read.
pub open spec fn lets_readable(items: Seq<LeanLet>, k: nat) -> bool
    decreases items, k,
{
    k == 0 || k > items.len() || (lets_readable(items, (k - 1) as nat) && let_readable(items[k - 1]))
}

/// What is read of the first `k` let declarations.
pub open spec fn lets_read(items: Seq<LeanLet>, k: nat) -> Seq<IRLetView>
    decreases items, k,
{
    if k == 0 || k > items.len() {
        Seq::empty()
    } else {
        lets_read(items, (k - 1) as nat).push(let_read(items[k - 1]))
    }
}

proof fn lemma_lets_unreadable(items: Seq<LeanLet>, k: nat, n: nat)
    requires
        k <= n <= items.len(),
        !lets_readable(items, k),
    ensures
        !lets_readable(items, n),
    decreases n - k,
{
    if k < n {
        lemma_lets_unreadable(items, k, (n - 1) as nat);
    }
}

proof fn lemma_let_pushed(vs: Seq<IRLet>, v: IRLet)
    ensures
        let_views(vs.push(v), vs.len() + 1) == let_views(vs, vs.len()).push(let_view(v)),
{
    lemma_let_views(vs, vs.len());
    lemma_let_views(vs.push(v), vs.len());
    assert(let_views(vs.push(v), vs.len()) =~= let_views(vs, vs.len()));
}

/// Reads an array of let declarations.
fn to_ir_lets(a: &LeanArrayObject, items: &Vec<LeanLet>) -> (r: Result<Vec<IRLet>, Fault>)
    ensures
        r is Ok <==> array_ok(*a, items@.len()) && lets_readable(items@, items@.len()),
        r matches Ok(x) ==> let_views(x@, x@.len()) == lets_read(items@, items@.len()),
        r matches Err(f) ==> f == Fault::Malformed,
    decreases items@, items@.len() + 1,
{
    if !to_vec(a, items.len()) {
        return Err(Fault::Malformed);
    }
    let mut out: Vec<IRLet> = Vec::new();
    let mut i: usize = 0;
    while i < items.len()
        invariant
            i <= items@.len(),
            out@.len() == i,
            lets_readable(items@, i as nat),
            let_views(out@, out@.len()) == lets_read(items@, i as nat),
        decreases items@.len() - i,
    {
        assert(decreases_to!(items@ => items@[i as int]));
        match to_ir_let(&items[i]) {
            Err(f) => {
                proof {
                    lemma_lets_unreadable(items@, (i + 1) as nat, items@.len());
                }
                return Err(f);
            },
            Ok(v) => {
                proof {
                    lemma_let_pushed(out@, v);
                }
                out.push(v);
            },
        }
        i = i + 1;
    }
    Ok(out)
}

/// Whether the first `k` rules can be read.
pub open spec fn rules_readable(items: Seq<LeanRule>, k: nat) -> bool
    decreases items, k,
{
    k == 0 || k > items.len() || (rules_readable(items, (k - 1) as nat) && rule_readable(items[k - 1]))
}

/// What is read of the first `k` rules.
pub open spec fn rules_read(items: Seq<LeanRule>, k: nat) -> Seq<IRRuleView>
    decreases items, k,
{
    if k == 0 || k > items.len() {
        Seq::empty()
    } else {
        rules_read(items, (k - 1) as nat).push(rule_read(items[k - 1]))
    }
}

proof fn lemma_rules_unreadable(items: Seq<LeanRule>, k: nat, n: nat)
    requires
        k <= n <= items.len(),
        !rules_readable(items, k),
    ensures
        !rules_readable(items, n),
    decreases n - k,
{
    if k < n {
        lemma_rules_unreadable(items, k, (n - 1) as nat);
    }
}

proof fn lemma_rule_pushed(vs: Seq<IRRule>, v: IRRule)
    ensures
        rule_views(vs.push(v), vs.len() + 1) == rule_views(vs, vs.len()).push(rule_view(v)),
{
    lemma_rule_views(vs, vs.len());
    lemma_rule_views(vs.push(v), vs.len());
    assert(rule_views(vs.push(v), vs.len()) =~= rule_views(vs, vs.len()));
}

/// Reads an array of rules.
fn to_ir_rules(a: &LeanArrayObject, items: &Vec<LeanRule>) -> (r: Result<Vec<IRRule>, Fault>)
    ensures
        r is Ok <==> array_ok(*a, items@.len()) && rules_readable(items@, items@.len()),
        r matches Ok(x) ==> rule_views(x@, x@.len()) == rules_read(items@, items@.len()),
        r matches Err(f) ==> f == Fault::Malformed,
    decreases items@, items@.len() + 1,
{
    if !to_vec(a, items.len()) {
        return Err(Fault::Malformed);
    }
    let mut out: Vec<IRRule> = Vec::new();
    let mut i: usize = 0;
    while i < items.len()
        invariant
            i <= items@.len(),
            out@.len() == i,
            rules_readable(items@, i as nat),
            rule_views(out@, out@.len()) == rules_read(items@, i as nat),
        decreases items@.len() - i,
    {
        assert(decreases_to!(items@ => items@[i as int]));
        match to_ir_rule(&items[i]) {
            Err(f) => {
                proof {
                    lemma_rules_unreadable(items@, (i + 1) as nat, items@.len());
                }
                return Err(f);
            },
            Ok(v) => {
                proof {
                    lemma_rule_pushed(out@, v);
                }
                out.push(v);
            },
        }
        i = i + 1;
    }
    Ok(out)
}

/// Reads a rule.
pub fn to_ir_rule(r: &LeanRule) -> (o: Result<IRRule, Fault>)
    ensures
        o is Ok <==> rule_readable(*r),
        o matches Ok(x) ==> rule_view(x) == rule_read(*r),
        o matches Err(f) ==> f == Fault::Malformed,
    decreases r, 0nat,
{
    let lhs: IRSpine = match to_ir_spine(&r.lhs) {
        Err(f) => {
            return Err(f);
        },
        Ok(s) => s,
    };
    let rhs: IRSpine = match to_ir_spine(&r.rhs) {
        Err(f) => {
            return Err(f);
        },
        Ok(s) => s,
    };
    match to_strings(&r.attribution, &r.attribution_items) {
        Err(f) => Err(f),
        Ok(attribution) => Ok(IRRule { lhs, rhs, attribution, is_redex: r.is_redex }),
    }
}

/// Reads a let declaration.
pub fn to_ir_let(l: &LeanLet) -> (o: Result<IRLet, Fault>)
    ensures
        o is Ok <==> let_readable(*l),
        o matches Ok(x) ==> let_view(x) == let_read(*l),
        o matches Err(f) ==> f == Fault::Malformed,
    decreases l, 0nat,
{
    let var: IRVar = match to_ir_var(&l.var) {
        Err(f) => {
            return Err(f);
        },
        Ok(v) => v,
    };
    assert(decreases_to!(*l => l.rules_items@));
    match to_ir_rules(&l.rules, &l.rules_items) {
        Err(f) => Err(f),
        Ok(rules) => Ok(IRLet { var, rules }),
    }
}

/// Reads a spine.
pub fn to_ir_spine(s: &LeanSpine) -> (o: Result<IRSpine, Fault>)
    ensures
        o is Ok <==> spine_readable(*s),
        o matches Ok(x) ==> spine_view(x) == spine_read(*s),
        o matches Err(f) ==> f == Fault::Malformed,
    decreases s, 0nat,
{
    let head: String = match to_string(&s.head) {
        Err(f) => {
            return Err(f);
        },
        Ok(h) => h,
    };
    assert(decreases_to!(*s => s.args_items@));
    match to_ir_terms(&s.args, &s.args_items) {
        Err(f) => Err(f),
        Ok(args) => {
            let r = IRSpine { head, args, premise_rules: Vec::new() };
            assert(spine_view(r).premise_rules =~= Seq::empty());
            Ok(r)
        },
    }
}

/// Reads a term.
pub fn to_ir_term(t: &LeanTerm) -> (o: Result<IRTerm, Fault>)
    ensures
        o is Ok <==> term_readable(*t),
        o matches Ok(x) ==> term_view(x) == term_read(*t),
        o matches Err(f) ==> f == Fault::Malformed,
    decreases t, 0nat,
{
    let params: Vec<IRVar> = match to_ir_vars(&t.params, &t.params_items) {
        Err(f) => {
            return Err(f);
        },
        Ok(v) => v,
    };
    assert(decreases_to!(*t => t.lets_items@));
    let lets: Vec<IRLet> = match to_ir_lets(&t.lets, &t.lets_items) {
        Err(f) => {
            return Err(f);
        },
        Ok(v) => v,
    };
    match to_ir_spine(&t.spine) {
        Err(f) => Err(f),
        Ok(spine) => {
            let r = IRTerm { params, lets, spine, goal_rules: Vec::new() };
            assert(term_view(r).goal_rules =~= Seq::empty());
            Ok(r)
        },
    }
}

/// Whether the type can be read.
pub open spec fn type_readable(t: LeanType) -> bool
    decreases t, 0nat,
{
    &&& array_ok(t.params, t.params_items@.len())
    &&& options_readable(t.params_items@, t.params_items@.len())
    &&& array_ok(t.lets, t.lets_items@.len())
    &&& options_readable(t.lets_items@, t.lets_items@.len())
    &&& term_readable(t.codomain)
}

/// Whether the optional type can be read: the only scalar that is one is zero.
pub open spec fn option_readable(o: LeanOption) -> bool
    decreases o, 0nat,
{
    match o {
        LeanOption::Scalar(word) => word / 2 == 0,
        LeanOption::Object { val, .. } => type_readable(val),
    }
}

/// Whether the first `k` optional types can be read.
pub open spec fn options_readable(items: Seq<LeanOption>, k: nat) -> bool
    decreases items, k,
{
    k == 0 || k > items.len() || (options_readable(items, (k - 1) as nat) && option_readable(
        items[k - 1],
    ))
}

/// What is read of a type.
pub open spec fn type_read(t: LeanType) -> IRTypeView
    decreases t, 0nat,
{
    IRTypeView {
        params: options_read(t.params_items@, t.params_items@.len()),
        lets: options_read(t.lets_items@, t.lets_items@.len()),
        codomain: term_read(t.codomain),
    }
}

/// What is read of an optional type.
pub open spec fn option_read(o: LeanOption) -> Option<IRTypeView>
    decreases o, 0nat,
{
    match o {
        LeanOption::Scalar(_) => None,
        LeanOption::Object { val, .. } => Some(type_read(val)),
    }
}

/// What is read of the first `k` optional types.
pub open spec fn options_read(items: Seq<LeanOption>, k: nat) -> Seq<Option<IRTypeView>>
    decreases items, k,
{
    if k == 0 || k > items.len() {
        Seq::empty()
    } else {
        options_read(items, (k - 1) as nat).push(option_read(items[k - 1]))
    }
}

proof fn lemma_options_unreadable(items: Seq<LeanOption>, k: nat, n: nat)
    requires
        k <= n <= items.len(),
        !options_readable(items, k),
    ensures
        !options_readable(items, n),
    decreases n - k,
{
    if k < n {
        lemma_options_unreadable(items, k, (n - 1) as nat);
    }
}

proof fn lemma_option_pushed(vs: Seq<Option<IRType>>, v: Option<IRType>)
    ensures
        option_views(vs.push(v), vs.len() + 1) == option_views(vs, vs.len()).push(option_view(v)),
{
    lemma_option_views(vs, vs.len());
    lemma_option_views(vs.push(v), vs.len());
    assert(option_views(vs.push(v), vs.len()) =~= option_views(vs, vs.len()));
}

/// The type in an optional type.
fn to_option(o: &LeanOption) -> (r: Result<Option<&LeanType>, Fault>)
    ensures
        r == match *o {
            LeanOption::Scalar(word) => if word / 2 == 0 {
                Ok(None)
            } else {
                Err(Fault::Malformed)
            },
            LeanOption::Object { val, .. } => Ok(Some(&val)),
        },
{
    match o {
        LeanOption::Scalar(word) => {
            if lean_unbox(*word) == 0 {
                Ok(None)
            } else {
                Err(Fault::Malformed)
            }
        },
        LeanOption::Object { val, .. } => Ok(Some(val)),
    }
}

/// Reads an optional type.
fn to_ir_option(o: &LeanOption) -> (r: Result<Option<IRType>, Fault>)
    ensures
        r is Ok <==> option_readable(*o),
        r matches Ok(x) ==> option_view(x) == option_read(*o),
        r matches Err(f) ==> f == Fault::Malformed,
    decreases o, 0nat,
{
    match to_option(o) {
        Err(f) => Err(f),
        Ok(None) => Ok(None),
        Ok(Some(t)) => {
            assert(decreases_to!(*o => o->val));
            match to_ir_type(t) {
                Err(f) => Err(f),
                Ok(x) => Ok(Some(x)),
            }
        },
    }
}

/// Reads an array of optional types.
fn to_ir_options(a: &LeanArrayObject, items: &Vec<LeanOption>) -> (r: Result<
    Vec<Option<IRType>>,
    Fault,
>)
    ensures
        r is Ok <==> array_ok(*a, items@.len()) && options_readable(items@, items@.len()),
        r matches Ok(x) ==> option_views(x@, x@.len()) == options_read(items@, items@.len()),
        r matches Err(f) ==> f == Fault::Malformed,
    decreases items@, items@.len() + 1,
{
    if !to_vec(a, items.len()) {
        return Err(Fault::Malformed);
    }
    let mut out: Vec<Option<IRType>> = Vec::new();
    let mut i: usize = 0;
    while i < items.len()
        invariant
            i <= items@.len(),
            out@.len() == i,
            options_readable(items@, i as nat),
            option_views(out@, out@.len()) == options_read(items@, i as nat),
        decreases items@.len() - i,
    {
        assert(decreases_to!(items@ => items@[i as int]));
        let v: Option<IRType> = match to_ir_option(&items[i]) {
            Err(f) => {
                proof {
                    lemma_options_unreadable(items@, (i + 1) as nat, items@.len());
                }
                return Err(f);
            },
            Ok(v) => v,
        };
        proof {
            lemma_option_pushed(out@, v);
        }
        out.push(v);
        i = i + 1;
    }
    Ok(out)
}

/// Reads a type.
pub fn to_ir_type(t: &LeanType) -> (o: Result<IRType, Fault>)
    ensures
        o is Ok <==> type_readable(*t),
        o matches Ok(x) ==> irtype_view(x) == type_read(*t),
        o matches Err(f) ==> f == Fault::Malformed,
    decreases t, 0nat,
{
    assert(decreases_to!(*t => t.params_items@));
    assert(decreases_to!(*t => t.lets_items@));
    let params: Vec<Option<IRType>> = match to_ir_options(&t.params, &t.params_items) {
        Err(f) => {
            return Err(f);
        },
        Ok(v) => v,
    };
    let lets: Vec<Option<IRType>> = match to_ir_options(&t.lets, &t.lets_items) {
        Err(f) => {
            return Err(f);
        },
        Ok(v) => v,
    };
    match to_ir_term(&t.codomain) {
        Err(f) => Err(f),
        Ok(codomain) => Ok(IRType { params, lets, codomain }),
    }
}

} // verus!
