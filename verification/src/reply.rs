//! Handing terms over to Lean, and reading them back.
use crate::data::strings;
use crate::exchange::{
    c_text, has_nul, lemma_first_nul, let_read, let_readable, lets_read, lets_readable, nul_from,
    rule_read, rule_readable, rules_read, rules_readable, spine_read, spine_readable, string_ok,
    strings_ok, term_read, term_readable, terms_read, terms_readable, texts, to_ir_rule,
    to_ir_spine, to_ir_term, to_ir_type, type_read, type_readable,
};
use crate::ids::Fault;
use crate::ir::{
    let_view, let_views, rule_view, rule_views, spine_view, term_view, term_views,
    var_names, IRLet, IRLetView, IRRule, IRRuleView, IRSpine, IRSpineView, IRTerm, IRTermView,
    IRVar,
};
use crate::lean::{
    array_header, ctor_header, LeanArrayObject, LeanLet, LeanObject, LeanRule, LeanSpine,
    LeanStringObject, LeanTerm, LeanType, LeanVar, ARRAY_TAG, STRING_TAG,
};
use crate::shown::{
    lemma_let_views, lemma_rule_views, lemma_term_views, shown_rule, shown_spine, shown_term,
    shown_type,
};
use vstd::prelude::*;

verus! {

/// The header of a string.
pub open spec fn string_header() -> LeanObject {
    LeanObject { m_rc: 1, m_cs_sz: 0, m_other: 0, m_tag: STRING_TAG }
}

/// Whether `o` is the object for the text `s`.
pub open spec fn string_laid(o: LeanStringObject, s: Seq<char>) -> bool {
    o.m_header == string_header() && o.m_data@ == s
}

/// Whether `a` is the object for an array of `len` items.
pub open spec fn array_laid(a: LeanArrayObject, len: nat) -> bool {
    a.m_header == array_header() && a.m_size == len && a.m_capacity == len
}

/// Whether `items` are the objects for the texts `ss`.
pub open spec fn strings_laid(items: Seq<LeanStringObject>, ss: Seq<Seq<char>>) -> bool {
    items.len() == ss.len() && forall|i: int|
        0 <= i < ss.len() ==> string_laid(#[trigger] items[i], ss[i])
}

/// Whether none of the texts holds a NUL.
pub open spec fn all_plain(ss: Seq<Seq<char>>) -> bool {
    forall|i: int| 0 <= i < ss.len() ==> !(#[trigger] ss[i]).contains('\0')
}

/// The object for a text that holds no NUL.
pub fn to_lean_string(s: &String) -> (r: Result<LeanStringObject, Fault>)
    ensures
        r is Ok <==> !s@.contains('\0'),
        r matches Ok(o) ==> string_laid(o, s@),
        r matches Err(f) ==> f == Fault::Malformed,
{
    if has_nul(s) {
        return Err(Fault::Malformed);
    }
    Ok(
        LeanStringObject {
            m_header: LeanObject { m_rc: 1, m_cs_sz: 0, m_other: 0, m_tag: STRING_TAG },
            m_data: s.clone(),
        },
    )
}

/// The object for an array of `len` items.
pub fn to_lean_array(len: usize) -> (r: LeanArrayObject)
    ensures
        array_laid(r, len as nat),
{
    LeanArrayObject {
        m_header: LeanObject { m_rc: 1, m_cs_sz: 0, m_other: 0, m_tag: ARRAY_TAG },
        m_size: len,
        m_capacity: len,
    }
}

/// The header of an object with the given number of fields.
fn header(num_objs: u8) -> (r: LeanObject)
    ensures
        r == ctor_header(0, num_objs as usize),
{
    LeanObject { m_rc: 1, m_cs_sz: 0, m_other: num_objs, m_tag: 0 }
}

/// The objects for texts.
fn to_lean_strings(ss: &Vec<String>) -> (r: Result<Vec<LeanStringObject>, Fault>)
    ensures
        r is Ok <==> all_plain(strings(ss@)),
        r matches Ok(x) ==> strings_laid(x@, strings(ss@)),
        r matches Err(f) ==> f == Fault::Malformed,
{
    let mut out: Vec<LeanStringObject> = Vec::new();
    let mut i: usize = 0;
    while i < ss.len()
        invariant
            i <= ss@.len(),
            out@.len() == i,
            forall|j: int| 0 <= j < i ==> !(#[trigger] strings(ss@)[j]).contains('\0'),
            forall|j: int| 0 <= j < i ==> string_laid(#[trigger] out@[j], strings(ss@)[j]),
        decreases ss@.len() - i,
    {
        assert(strings(ss@)[i as int] == ss@[i as int]@);
        match to_lean_string(&ss[i]) {
            Err(f) => {
                return Err(f);
            },
            Ok(o) => out.push(o),
        }
        i = i + 1;
    }
    Ok(out)
}

/// The object for a variable.
pub fn to_lean_var(v: &IRVar) -> (r: Result<LeanVar, Fault>)
    ensures
        r is Ok <==> !v.name@.contains('\0'),
        r matches Ok(o) ==> string_laid(o, v.name@),
        r matches Err(f) ==> f == Fault::Malformed,
{
    to_lean_string(&v.name)
}

/// The objects for variables.
fn to_lean_vars(vs: &Vec<IRVar>) -> (r: Result<Vec<LeanVar>, Fault>)
    ensures
        r is Ok <==> all_plain(var_names(vs@)),
        r matches Ok(x) ==> strings_laid(x@, var_names(vs@)),
        r matches Err(f) ==> f == Fault::Malformed,
{
    let mut out: Vec<LeanVar> = Vec::new();
    let mut i: usize = 0;
    while i < vs.len()
        invariant
            i <= vs@.len(),
            out@.len() == i,
            forall|j: int| 0 <= j < i ==> !(#[trigger] var_names(vs@)[j]).contains('\0'),
            forall|j: int| 0 <= j < i ==> string_laid(#[trigger] out@[j], var_names(vs@)[j]),
        decreases vs@.len() - i,
    {
        assert(var_names(vs@)[i as int] == vs@[i as int].name@);
        match to_lean_var(&vs[i]) {
            Err(f) => {
                return Err(f);
            },
            Ok(o) => out.push(o),
        }
        i = i + 1;
    }
    Ok(out)
}

/// Whether no text in the spine holds a NUL.
pub open spec fn spine_plain(s: IRSpine) -> bool
    decreases s, 0nat,
{
    &&& !s.head@.contains('\0')
    &&& terms_plain(s.args@, s.args@.len())
    &&& all_plain(strings(s.premise_rules@))
}

/// Whether no text in the term holds a NUL.
pub open spec fn term_plain(t: IRTerm) -> bool
    decreases t, 0nat,
{
    &&& all_plain(var_names(t.params@))
    &&& lets_plain(t.lets@, t.lets@.len())
    &&& spine_plain(t.spine)
    &&& all_plain(strings(t.goal_rules@))
}

/// Whether no text in the let declaration holds a NUL.
pub open spec fn let_plain(l: IRLet) -> bool
    decreases l, 0nat,
{
    &&& !l.var.name@.contains('\0')
    &&& rules_plain(l.rules@, l.rules@.len())
}

/// Whether no text in the rule holds a NUL.
pub open spec fn rule_plain(r: IRRule) -> bool
    decreases r, 0nat,
{
    &&& spine_plain(r.lhs)
    &&& spine_plain(r.rhs)
    &&& all_plain(strings(r.attribution@))
}

/// Whether `o` is the object for the spine `s`.
pub open spec fn spine_laid(o: LeanSpine, s: IRSpine) -> bool
    decreases s, 0nat,
{
    &&& o.m_header == ctor_header(0, 3)
    &&& string_laid(o.head, s.head@)
    &&& array_laid(o.args, s.args@.len())
    &&& o.args_items@.len() == s.args@.len()
    &&& terms_laid(o.args_items@, s.args@, s.args@.len())
    &&& array_laid(o.premise_rules, s.premise_rules@.len())
    &&& strings_laid(o.premise_rules_items@, strings(s.premise_rules@))
}

/// Whether `o` is the object for the term `t`.
pub open spec fn term_laid(o: LeanTerm, t: IRTerm) -> bool
    decreases t, 0nat,
{
    &&& o.m_header == ctor_header(0, 4)
    &&& array_laid(o.params, t.params@.len())
    &&& strings_laid(o.params_items@, var_names(t.params@))
    &&& array_laid(o.lets, t.lets@.len())
    &&& o.lets_items@.len() == t.lets@.len()
    &&& lets_laid(o.lets_items@, t.lets@, t.lets@.len())
    &&& spine_laid(o.spine, t.spine)
    &&& array_laid(o.goal_rules, t.goal_rules@.len())
    &&& strings_laid(o.goal_rules_items@, strings(t.goal_rules@))
}

/// Whether `o` is the object for the let declaration `l`.
pub open spec fn let_laid(o: LeanLet, l: IRLet) -> bool
    decreases l, 0nat,
{
    &&& o.m_header == ctor_header(0, 2)
    &&& string_laid(o.var, l.var.name@)
    &&& array_laid(o.rules, l.rules@.len())
    &&& o.rules_items@.len() == l.rules@.len()
    &&& rules_laid(o.rules_items@, l.rules@, l.rules@.len())
}

/// Whether `o` is the object for the rule `r`.
pub open spec fn rule_laid(o: LeanRule, r: IRRule) -> bool
    decreases r, 0nat,
{
    &&& o.m_header == ctor_header(0, 3)
    &&& spine_laid(o.lhs, r.lhs)
    &&& spine_laid(o.rhs, r.rhs)
    &&& array_laid(o.attribution, r.attribution@.len())
    &&& strings_laid(o.attribution_items@, strings(r.attribution@))
    &&& o.is_redex == r.is_redex
}

/// The spine without the rules that justify premises and goals.
pub open spec fn bare_spine(s: IRSpineView) -> IRSpineView
    decreases s, 0nat,
{
    IRSpineView {
        head: s.head,
        args: bare_terms(s.args, s.args.len()),
        premise_rules: Seq::empty(),
    }
}

/// The term without the rules that justify premises and goals.
pub open spec fn bare_term(t: IRTermView) -> IRTermView
    decreases t, 0nat,
{
    IRTermView {
        params: t.params,
        lets: bare_lets(t.lets, t.lets.len()),
        spine: bare_spine(t.spine),
        goal_rules: Seq::empty(),
    }
}

/// The let declaration without the rules that justify premises and goals.
pub open spec fn bare_let(l: IRLetView) -> IRLetView
    decreases l, 0nat,
{
    IRLetView { name: l.name, rules: bare_rules(l.rules, l.rules.len()) }
}

/// The rule without the rules that justify premises and goals.
pub open spec fn bare_rule(r: IRRuleView) -> IRRuleView
    decreases r, 0nat,
{
    IRRuleView { lhs: bare_spine(r.lhs), rhs: bare_spine(r.rhs), ..r }
}

/// Whether no text in the first `k` terms holds a NUL.
pub open spec fn terms_plain(vs: Seq<IRTerm>, k: nat) -> bool
    decreases vs, k,
{
    k == 0 || k > vs.len() || (terms_plain(vs, (k - 1) as nat) && term_plain(vs[k - 1]))
}

/// Whether the first `k` of `items` are the objects for the first `k` terms.
pub open spec fn terms_laid(items: Seq<LeanTerm>, vs: Seq<IRTerm>, k: nat) -> bool
    decreases vs, k,
{
    k == 0 || k > vs.len() || (terms_laid(items, vs, (k - 1) as nat) && term_laid(
        items[k - 1],
        vs[k - 1],
    ))
}

/// The first `k` terms without the rules that justify premises and goals.
pub open spec fn bare_terms(vs: Seq<IRTermView>, k: nat) -> Seq<IRTermView>
    decreases vs, k,
{
    if k == 0 || k > vs.len() {
        Seq::empty()
    } else {
        bare_terms(vs, (k - 1) as nat).push(bare_term(vs[k - 1]))
    }
}

proof fn lemma_terms_not_plain(vs: Seq<IRTerm>, k: nat, n: nat)
    requires
        k <= n <= vs.len(),
        !terms_plain(vs, k),
    ensures
        !terms_plain(vs, n),
    decreases n - k,
{
    if k < n {
        lemma_terms_not_plain(vs, k, (n - 1) as nat);
    }
}

proof fn lemma_terms_laid_more(items: Seq<LeanTerm>, more: Seq<LeanTerm>, vs: Seq<IRTerm>, k: nat)
    requires
        k <= items.len() <= more.len(),
        k <= vs.len(),
        forall|i: int| 0 <= i < items.len() ==> #[trigger] more[i] == items[i],
        terms_laid(items, vs, k),
    ensures
        terms_laid(more, vs, k),
    decreases k,
{
    if k > 0 {
        lemma_terms_laid_more(items, more, vs, (k - 1) as nat);
        assert(more[k - 1] == items[k - 1]);
    }
}

/// The objects for terms.
fn to_lean_terms(vs: &Vec<IRTerm>) -> (r: Result<Vec<LeanTerm>, Fault>)
    ensures
        r is Ok <==> terms_plain(vs@, vs@.len()),
        r matches Ok(x) ==> x@.len() == vs@.len() && terms_laid(x@, vs@, vs@.len()),
        r matches Err(f) ==> f == Fault::Malformed,
    decreases vs@, vs@.len() + 1,
{
    let mut out: Vec<LeanTerm> = Vec::new();
    let mut i: usize = 0;
    while i < vs.len()
        invariant
            i <= vs@.len(),
            out@.len() == i,
            terms_plain(vs@, i as nat),
            terms_laid(out@, vs@, i as nat),
        decreases vs@.len() - i,
    {
        assert(decreases_to!(vs@ => vs@[i as int]));
        match to_lean_term(&vs[i]) {
            Err(f) => {
                proof {
                    lemma_terms_not_plain(vs@, (i + 1) as nat, vs@.len());
                }
                return Err(f);
            },
            Ok(o) => {
                proof {
                    lemma_terms_laid_more(out@, out@.push(o), vs@, i as nat);
                }
                out.push(o);
            },
        }
        i = i + 1;
    }
    Ok(out)
}

proof fn lemma_terms_return(items: Seq<LeanTerm>, vs: Seq<IRTerm>, k: nat)
    requires
        k <= vs.len() == items.len(),
        terms_laid(items, vs, k),
        terms_plain(vs, k),
    ensures
        terms_readable(items, k),
        terms_read(items, k) == bare_terms(term_views(vs, vs.len()), k),
    decreases vs, k,
{
    lemma_term_views(vs, vs.len());
    if k > 0 {
        lemma_terms_return(items, vs, (k - 1) as nat);
        lemma_term_return(items[k - 1], vs[k - 1]);
    }
}

/// Whether no text in the first `k` let declarations holds a NUL.
pub open spec fn lets_plain(vs: Seq<IRLet>, k: nat) -> bool
    decreases vs, k,
{
    k == 0 || k > vs.len() || (lets_plain(vs, (k - 1) as nat) && let_plain(vs[k - 1]))
}

/// Whether the first `k` of `items` are the objects for the first `k` let declarations.
pub open spec fn lets_laid(items: Seq<LeanLet>, vs: Seq<IRLet>, k: nat) -> bool
    decreases vs, k,
{
    k == 0 || k > vs.len() || (lets_laid(items, vs, (k - 1) as nat) && let_laid(
        items[k - 1],
        vs[k - 1],
    ))
}

/// The first `k` let declarations without the rules that justify premises and goals.
pub open spec fn bare_lets(vs: Seq<IRLetView>, k: nat) -> Seq<IRLetView>
    decreases vs, k,
{
    if k == 0 || k > vs.len() {
        Seq::empty()
    } else {
        bare_lets(vs, (k - 1) as nat).push(bare_let(vs[k - 1]))
    }
}

proof fn lemma_lets_not_plain(vs: Seq<IRLet>, k: nat, n: nat)
    requires
        k <= n <= vs.len(),
        !lets_plain(vs, k),
    ensures
        !lets_plain(vs, n),
    decreases n - k,
{
    if k < n {
        lemma_lets_not_plain(vs, k, (n - 1) as nat);
    }
}

proof fn lemma_lets_laid_more(items: Seq<LeanLet>, more: Seq<LeanLet>, vs: Seq<IRLet>, k: nat)
    requires
        k <= items.len() <= more.len(),
        k <= vs.len(),
        forall|i: int| 0 <= i < items.len() ==> #[trigger] more[i] == items[i],
        lets_laid(items, vs, k),
    ensures
        lets_laid(more, vs, k),
    decreases k,
{
    if k > 0 {
        lemma_lets_laid_more(items, more, vs, (k - 1) as nat);
        assert(more[k - 1] == items[k - 1]);
    }
}

/// The objects for let declarations.
fn to_lean_lets(vs: &Vec<IRLet>) -> (r: Result<Vec<LeanLet>, Fault>)
    ensures
        r is Ok <==> lets_plain(vs@, vs@.len()),
        r matches Ok(x) ==> x@.len() == vs@.len() && lets_laid(x@, vs@, vs@.len()),
        r matches Err(f) ==> f == Fault::Malformed,
    decreases vs@, vs@.len() + 1,
{
    let mut out: Vec<LeanLet> = Vec::new();
    let mut i: usize = 0;
    while i < vs.len()
        invariant
            i <= vs@.len(),
            out@.len() == i,
            lets_plain(vs@, i as nat),
            lets_laid(out@, vs@, i as nat),
        decreases vs@.len() - i,
    {
        assert(decreases_to!(vs@ => vs@[i as int]));
        match to_lean_let(&vs[i]) {
            Err(f) => {
                proof {
                    lemma_lets_not_plain(vs@, (i + 1) as nat, vs@.len());
                }
                return Err(f);
            },
            Ok(o) => {
                proof {
                    lemma_lets_laid_more(out@, out@.push(o), vs@, i as nat);
                }
                out.push(o);
            },
        }
        i = i + 1;
    }
    Ok(out)
}

proof fn lemma_lets_return(items: Seq<LeanLet>, vs: Seq<IRLet>, k: nat)
    requires
        k <= vs.len() == items.len(),
        lets_laid(items, vs, k),
        lets_plain(vs, k),
    ensures
        lets_readable(items, k),
        lets_read(items, k) == bare_lets(let_views(vs, vs.len()), k),
    decreases vs, k,
{
    lemma_let_views(vs, vs.len());
    if k > 0 {
        lemma_lets_return(items, vs, (k - 1) as nat);
        lemma_let_return(items[k - 1], vs[k - 1]);
    }
}

/// Whether no text in the first `k` rules holds a NUL.
pub open spec fn rules_plain(vs: Seq<IRRule>, k: nat) -> bool
    decreases vs, k,
{
    k == 0 || k > vs.len() || (rules_plain(vs, (k - 1) as nat) && rule_plain(vs[k - 1]))
}

/// Whether the first `k` of `items` are the objects for the first `k` rules.
pub open spec fn rules_laid(items: Seq<LeanRule>, vs: Seq<IRRule>, k: nat) -> bool
    decreases vs, k,
{
    k == 0 || k > vs.len() || (rules_laid(items, vs, (k - 1) as nat) && rule_laid(
        items[k - 1],
        vs[k - 1],
    ))
}

/// The first `k` rules without the rules that justify premises and goals.
pub open spec fn bare_rules(vs: Seq<IRRuleView>, k: nat) -> Seq<IRRuleView>
    decreases vs, k,
{
    if k == 0 || k > vs.len() {
        Seq::empty()
    } else {
        bare_rules(vs, (k - 1) as nat).push(bare_rule(vs[k - 1]))
    }
}

proof fn lemma_rules_not_plain(vs: Seq<IRRule>, k: nat, n: nat)
    requires
        k <= n <= vs.len(),
        !rules_plain(vs, k),
    ensures
        !rules_plain(vs, n),
    decreases n - k,
{
    if k < n {
        lemma_rules_not_plain(vs, k, (n - 1) as nat);
    }
}

proof fn lemma_rules_laid_more(items: Seq<LeanRule>, more: Seq<LeanRule>, vs: Seq<IRRule>, k: nat)
    requires
        k <= items.len() <= more.len(),
        k <= vs.len(),
        forall|i: int| 0 <= i < items.len() ==> #[trigger] more[i] == items[i],
        rules_laid(items, vs, k),
    ensures
        rules_laid(more, vs, k),
    decreases k,
{
    if k > 0 {
        lemma_rules_laid_more(items, more, vs, (k - 1) as nat);
        assert(more[k - 1] == items[k - 1]);
    }
}

/// The objects for rules.
fn to_lean_rules(vs: &Vec<IRRule>) -> (r: Result<Vec<LeanRule>, Fault>)
    ensures
        r is Ok <==> rules_plain(vs@, vs@.len()),
        r matches Ok(x) ==> x@.len() == vs@.len() && rules_laid(x@, vs@, vs@.len()),
        r matches Err(f) ==> f == Fault::Malformed,
    decreases vs@, vs@.len() + 1,
{
    let mut out: Vec<LeanRule> = Vec::new();
    let mut i: usize = 0;
    while i < vs.len()
        invariant
            i <= vs@.len(),
            out@.len() == i,
            rules_plain(vs@, i as nat),
            rules_laid(out@, vs@, i as nat),
        decreases vs@.len() - i,
    {
        assert(decreases_to!(vs@ => vs@[i as int]));
        match to_lean_rule(&vs[i]) {
            Err(f) => {
                proof {
                    lemma_rules_not_plain(vs@, (i + 1) as nat, vs@.len());
                }
                return Err(f);
            },
            Ok(o) => {
                proof {
                    lemma_rules_laid_more(out@, out@.push(o), vs@, i as nat);
                }
                out.push(o);
            },
        }
        i = i + 1;
    }
    Ok(out)
}

proof fn lemma_rules_return(items: Seq<LeanRule>, vs: Seq<IRRule>, k: nat)
    requires
        k <= vs.len() == items.len(),
        rules_laid(items, vs, k),
        rules_plain(vs, k),
    ensures
        rules_readable(items, k),
        rules_read(items, k) == bare_rules(rule_views(vs, vs.len()), k),
    decreases vs, k,
{
    lemma_rule_views(vs, vs.len());
    if k > 0 {
        lemma_rules_return(items, vs, (k - 1) as nat);
        lemma_rule_return(items[k - 1], vs[k - 1]);
    }
}

/// The object for a rule.
pub fn to_lean_rule(r: &IRRule) -> (o: Result<LeanRule, Fault>)
    ensures
        o is Ok <==> rule_plain(*r),
        o matches Ok(x) ==> rule_laid(x, *r),
        o matches Err(f) ==> f == Fault::Malformed,
    decreases r, 0nat,
{
    let lhs: LeanSpine = match to_lean_spine(&r.lhs) {
        Err(f) => {
            return Err(f);
        },
        Ok(x) => x,
    };
    let rhs: LeanSpine = match to_lean_spine(&r.rhs) {
        Err(f) => {
            return Err(f);
        },
        Ok(x) => x,
    };
    let attribution_items: Vec<LeanStringObject> = match to_lean_strings(&r.attribution) {
        Err(f) => {
            return Err(f);
        },
        Ok(x) => x,
    };
    Ok(
        LeanRule {
            m_header: header(3),
            lhs,
            rhs,
            attribution: to_lean_array(r.attribution.len()),
            attribution_items,
            is_redex: r.is_redex,
        },
    )
}

/// The object for a let declaration.
pub fn to_lean_let(l: &IRLet) -> (o: Result<LeanLet, Fault>)
    ensures
        o is Ok <==> let_plain(*l),
        o matches Ok(x) ==> let_laid(x, *l),
        o matches Err(f) ==> f == Fault::Malformed,
    decreases l, 0nat,
{
    assert(decreases_to!(*l => l.rules@));
    let var: LeanVar = match to_lean_var(&l.var) {
        Err(f) => {
            return Err(f);
        },
        Ok(x) => x,
    };
    let rules_items: Vec<LeanRule> = match to_lean_rules(&l.rules) {
        Err(f) => {
            return Err(f);
        },
        Ok(x) => x,
    };
    Ok(
        LeanLet {
            m_header: header(2),
            var,
            rules: to_lean_array(l.rules.len()),
            rules_items,
        },
    )
}

/// The object for a spine.
pub fn to_lean_spine(s: &IRSpine) -> (o: Result<LeanSpine, Fault>)
    ensures
        o is Ok <==> spine_plain(*s),
        o matches Ok(x) ==> spine_laid(x, *s),
        o matches Err(f) ==> f == Fault::Malformed,
    decreases s, 0nat,
{
    assert(decreases_to!(*s => s.args@));
    let head: LeanStringObject = match to_lean_string(&s.head) {
        Err(f) => {
            return Err(f);
        },
        Ok(x) => x,
    };
    let args_items: Vec<LeanTerm> = match to_lean_terms(&s.args) {
        Err(f) => {
            return Err(f);
        },
        Ok(x) => x,
    };
    let premise_rules_items: Vec<LeanStringObject> = match to_lean_strings(&s.premise_rules) {
        Err(f) => {
            return Err(f);
        },
        Ok(x) => x,
    };
    Ok(
        LeanSpine {
            m_header: header(3),
            head,
            args: to_lean_array(s.args.len()),
            args_items,
            premise_rules: to_lean_array(s.premise_rules.len()),
            premise_rules_items,
        },
    )
}

/// The object for a term.
pub fn to_lean_term(t: &IRTerm) -> (o: Result<LeanTerm, Fault>)
    ensures
        o is Ok <==> term_plain(*t),
        o matches Ok(x) ==> term_laid(x, *t),
        o matches Err(f) ==> f == Fault::Malformed,
    decreases t, 0nat,
{
    assert(decreases_to!(*t => t.lets@));
    let params_items: Vec<LeanVar> = match to_lean_vars(&t.params) {
        Err(f) => {
            return Err(f);
        },
        Ok(x) => x,
    };
    let lets_items: Vec<LeanLet> = match to_lean_lets(&t.lets) {
        Err(f) => {
            return Err(f);
        },
        Ok(x) => x,
    };
    let spine: LeanSpine = match to_lean_spine(&t.spine) {
        Err(f) => {
            return Err(f);
        },
        Ok(x) => x,
    };
    let goal_rules_items: Vec<LeanStringObject> = match to_lean_strings(&t.goal_rules) {
        Err(f) => {
            return Err(f);
        },
        Ok(x) => x,
    };
    Ok(
        LeanTerm {
            m_header: header(4),
            params: to_lean_array(t.params.len()),
            params_items,
            lets: to_lean_array(t.lets.len()),
            lets_items,
            spine,
            goal_rules: to_lean_array(t.goal_rules.len()),
            goal_rules_items,
        },
    )
}

proof fn lemma_text_return(s: Seq<char>)
    requires
        !s.contains('\0'),
    ensures
        c_text(s) == s,
{
    lemma_first_nul(s, 0);
    if nul_from(s, 0) < s.len() {
        assert(s.contains(s[nul_from(s, 0) as int]));
    }
    assert(c_text(s) =~= s);
}

proof fn lemma_strings_return(items: Seq<LeanStringObject>, ss: Seq<Seq<char>>)
    requires
        strings_laid(items, ss),
        all_plain(ss),
    ensures
        strings_ok(items),
        texts(items) == ss,
{
    assert forall|i: int| 0 <= i < items.len() implies #[trigger] string_ok(items[i]) by {
        assert(string_laid(items[i], ss[i]));
    }
    assert forall|i: int| 0 <= i < items.len() implies #[trigger] texts(items)[i] == ss[i] by {
        assert(string_laid(items[i], ss[i]));
        assert(!ss[i].contains('\0'));
        lemma_text_return(ss[i]);
    }
    assert(texts(items) =~= ss);
}

/// A spine that was handed over is read back as it was, but for the rules that justify its premises
/// and goals.
pub proof fn law_spine_returns(o: LeanSpine, s: IRSpine)
    requires
        spine_laid(o, s),
        spine_plain(s),
    ensures
        spine_readable(o),
        spine_read(o) == bare_spine(spine_view(s)),
    decreases s, 0nat,
{
    lemma_text_return(s.head@);
    lemma_term_views(s.args@, s.args@.len());
    lemma_terms_return(o.args_items@, s.args@, s.args@.len());
}

/// A term that was handed over is read back as it was, but for the rules that justify its premises
/// and goals.
pub proof fn law_term_returns(o: LeanTerm, t: IRTerm)
    requires
        term_laid(o, t),
        term_plain(t),
    ensures
        term_readable(o),
        term_read(o) == bare_term(term_view(t)),
{
    lemma_term_return(o, t);
}

proof fn lemma_term_return(o: LeanTerm, t: IRTerm)
    requires
        term_laid(o, t),
        term_plain(t),
    ensures
        term_readable(o),
        term_read(o) == bare_term(term_view(t)),
    decreases t, 0nat,
{
    lemma_strings_return(o.params_items@, var_names(t.params@));
    lemma_let_views(t.lets@, t.lets@.len());
    lemma_lets_return(o.lets_items@, t.lets@, t.lets@.len());
    law_spine_returns(o.spine, t.spine);
}

proof fn lemma_let_return(o: LeanLet, l: IRLet)
    requires
        let_laid(o, l),
        let_plain(l),
    ensures
        let_readable(o),
        let_read(o) == bare_let(let_view(l)),
    decreases l, 0nat,
{
    lemma_text_return(l.var.name@);
    lemma_rule_views(l.rules@, l.rules@.len());
    lemma_rules_return(o.rules_items@, l.rules@, l.rules@.len());
}

proof fn lemma_rule_return(o: LeanRule, r: IRRule)
    requires
        rule_laid(o, r),
        rule_plain(r),
    ensures
        rule_readable(o),
        rule_read(o) == bare_rule(rule_view(r)),
    decreases r, 0nat,
{
    law_spine_returns(o.lhs, r.lhs);
    law_spine_returns(o.rhs, r.rhs);
    lemma_strings_return(o.attribution_items@, strings(r.attribution@));
}

/// A rule that was handed over is read back as it was, but for the rules that justify premises and
/// goals.
pub proof fn law_rule_returns(o: LeanRule, r: IRRule)
    requires
        rule_laid(o, r),
        rule_plain(r),
    ensures
        rule_readable(o),
        rule_read(o) == bare_rule(rule_view(r)),
{
    lemma_rule_return(o, r);
}

/// A let declaration that was handed over is read back as it was, but for the rules that justify
/// premises and goals.
pub proof fn law_let_returns(o: LeanLet, l: IRLet)
    requires
        let_laid(o, l),
        let_plain(l),
    ensures
        let_readable(o),
        let_read(o) == bare_let(let_view(l)),
{
    lemma_let_return(o, l);
}

/// The text of the spine, which Lean handed over.
pub fn spine_to_string(v: &LeanSpine) -> (r: Result<LeanStringObject, Fault>)
    ensures
        r is Ok <==> spine_readable(*v) && !shown_spine(spine_read(*v)).contains('\0'),
        r matches Ok(o) ==> string_laid(o, shown_spine(spine_read(*v))),
        r matches Err(f) ==> f == Fault::Malformed,
{
    match to_ir_spine(v) {
        Err(f) => Err(f),
        Ok(x) => to_lean_string(&x.to_string()),
    }
}

/// The text of the term, which Lean handed over.
pub fn term_to_string(v: &LeanTerm) -> (r: Result<LeanStringObject, Fault>)
    ensures
        r is Ok <==> term_readable(*v) && !shown_term(term_read(*v)).contains('\0'),
        r matches Ok(o) ==> string_laid(o, shown_term(term_read(*v))),
        r matches Err(f) ==> f == Fault::Malformed,
{
    match to_ir_term(v) {
        Err(f) => Err(f),
        Ok(x) => to_lean_string(&x.to_string()),
    }
}

/// The text of the type, which Lean handed over.
pub fn typ_to_string(v: &LeanType) -> (r: Result<LeanStringObject, Fault>)
    ensures
        r is Ok <==> type_readable(*v) && !shown_type(type_read(*v), "\n"@).contains('\0'),
        r matches Ok(o) ==> string_laid(o, shown_type(type_read(*v), "\n"@)),
        r matches Err(f) ==> f == Fault::Malformed,
{
    match to_ir_type(v) {
        Err(f) => Err(f),
        Ok(x) => to_lean_string(&x.to_string()),
    }
}

/// The text of the rule, which Lean handed over.
pub fn rule_to_string(v: &LeanRule) -> (r: Result<LeanStringObject, Fault>)
    ensures
        r is Ok <==> rule_readable(*v) && !shown_rule(rule_read(*v)).contains('\0'),
        r matches Ok(o) ==> string_laid(o, shown_rule(rule_read(*v))),
        r matches Err(f) ==> f == Fault::Malformed,
{
    match to_ir_rule(v) {
        Err(f) => Err(f),
        Ok(x) => to_lean_string(&x.to_string()),
    }
}

} // verus!
