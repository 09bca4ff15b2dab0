//! How the objects of Lean and written terms correspond, part by part.
use crate::exchange::{
    c_text, lemma_first_nul, let_read, let_readable, lets_read, lets_readable, option_read,
    option_readable, options_read, options_readable, rule_read, rule_readable, rules_read,
    rules_readable, spine_read, spine_readable, string_ok, strings_ok, term_read, term_readable,
    terms_read, terms_readable, texts, type_read, type_readable,
};
use crate::data::strings;
use crate::ir::{
    let_view, let_views, rule_view, rule_views, spine_view, term_view, term_views, var_names, IRLet,
    IRLetView, IRRule, IRRuleView, IRSpine, IRSpineView, IRTerm, IRTermView, IRTypeView,
};
use crate::lean::{
    LeanArrayObject, LeanLet, LeanObject, LeanOption, LeanRule, LeanSpine, LeanStringObject,
    LeanTerm, LeanType,
};
use crate::reply::{
    all_plain, let_laid, let_plain, lets_laid, lets_plain, rule_laid, rule_plain, rules_laid,
    rules_plain, spine_laid, spine_plain, strings_laid, term_laid, term_plain, terms_laid,
    terms_plain,
};
use crate::shown::{lemma_let_views, lemma_rule_views, lemma_term_views};
use vstd::prelude::*;

verus! {

/// Whether the text of the object is `s`: what stands before its first NUL.
pub open spec fn same_text(o: LeanStringObject, s: Seq<char>) -> bool {
    &&& s.len() <= o.m_data@.len()
    &&& forall|i: int| 0 <= i < s.len() ==> #[trigger] s[i] == o.m_data@[i] && s[i] != '\0'
    &&& s.len() < o.m_data@.len() ==> o.m_data@[s.len() as int] == '\0'
}

/// Whether the texts of the objects are those of `ss`, in order.
pub open spec fn same_texts(items: Seq<LeanStringObject>, ss: Seq<Seq<char>>) -> bool {
    &&& items.len() == ss.len()
    &&& forall|i: int| 0 <= i < ss.len() ==> same_text(#[trigger] items[i], ss[i])
}

/// Whether the rules that justify a premise or a goal are there, or are left out.
pub open spec fn justified(
    items: Seq<LeanStringObject>,
    ss: Seq<Seq<char>>,
    whole: bool,
) -> bool {
    if whole {
        same_texts(items, ss)
    } else {
        ss.len() == 0
    }
}

/// Whether the object is a spine with the parts of `v`: its head, and all its arguments in order.
/// If it is `whole`, so are the rules that justify premises and goals.
pub open spec fn is_spine(o: LeanSpine, v: IRSpineView, whole: bool) -> bool
    decreases o,
{
    &&& same_text(o.head, v.head)
    &&& are_terms(o.args_items@, v.args, whole)
    &&& justified(o.premise_rules_items@, v.premise_rules, whole)
}

/// Whether the object is a term with the parts of `v`.
pub open spec fn is_term(o: LeanTerm, v: IRTermView, whole: bool) -> bool
    decreases o,
{
    &&& same_texts(o.params_items@, v.params)
    &&& are_lets(o.lets_items@, v.lets, whole)
    &&& is_spine(o.spine, v.spine, whole)
    &&& justified(o.goal_rules_items@, v.goal_rules, whole)
}

/// Whether the object is a let declaration with the parts of `v`.
pub open spec fn is_let(o: LeanLet, v: IRLetView, whole: bool) -> bool
    decreases o,
{
    &&& same_text(o.var, v.name)
    &&& are_rules(o.rules_items@, v.rules, whole)
}

/// Whether the object is a rule with the parts of `v`.
pub open spec fn is_rule(o: LeanRule, v: IRRuleView, whole: bool) -> bool
    decreases o,
{
    &&& is_spine(o.lhs, v.lhs, whole)
    &&& is_spine(o.rhs, v.rhs, whole)
    &&& same_texts(o.attribution_items@, v.attribution)
    &&& o.is_redex == v.is_redex
}

/// Whether the object is a type with the parts of `v`: as many parameters and let declarations,
/// each with its type, and the codomain.
pub open spec fn is_type(o: LeanType, v: IRTypeView) -> bool
    decreases o,
{
    &&& are_options(o.params_items@, v.params)
    &&& are_options(o.lets_items@, v.lets)
    &&& is_term(o.codomain, v.codomain, false)
}

/// Whether the word is that of an unknown type, or the object holds the type.
pub open spec fn is_option(o: LeanOption, v: Option<IRTypeView>) -> bool
    decreases o,
{
    match (o, v) {
        (LeanOption::Scalar(_), None) => true,
        (LeanOption::Object { m_header, val }, Some(t)) => is_type(val, t),
        _ => false,
    }
}

/// Whether the objects are those of `vs`, each in its place.
pub open spec fn are_terms(items: Seq<LeanTerm>, vs: Seq<IRTermView>, whole: bool) -> bool
    decreases items,
{
    &&& items.len() == vs.len()
    &&& forall|i: int| 0 <= i < items.len() ==> is_term(#[trigger] items[i], vs[i], whole)
}

/// Whether the objects are those of `vs`, each in its place.
pub open spec fn are_lets(items: Seq<LeanLet>, vs: Seq<IRLetView>, whole: bool) -> bool
    decreases items,
{
    &&& items.len() == vs.len()
    &&& forall|i: int| 0 <= i < items.len() ==> is_let(#[trigger] items[i], vs[i], whole)
}

/// Whether the objects are those of `vs`, each in its place.
pub open spec fn are_rules(items: Seq<LeanRule>, vs: Seq<IRRuleView>, whole: bool) -> bool
    decreases items,
{
    &&& items.len() == vs.len()
    &&& forall|i: int| 0 <= i < items.len() ==> is_rule(#[trigger] items[i], vs[i], whole)
}

/// Whether the objects are those of `vs`, each in its place.
pub open spec fn are_options(items: Seq<LeanOption>, vs: Seq<Option<IRTypeView>>) -> bool
    decreases items,
{
    &&& items.len() == vs.len()
    &&& forall|i: int| 0 <= i < items.len() ==> is_option(#[trigger] items[i], vs[i])
}

/// Whether the object has the tag of an array, and holds as many items as it says.
pub open spec fn tagged_array(a: LeanArrayObject, len: nat) -> bool {
    a.m_header.m_tag == 246 && a.m_size == len
}

/// Whether the object has the tag of a string.
pub open spec fn tagged_string(s: LeanStringObject) -> bool {
    s.m_header.m_tag == 249
}

/// Whether the objects have the tag of a string.
pub open spec fn tagged_strings(a: LeanArrayObject, items: Seq<LeanStringObject>) -> bool {
    tagged_array(a, items.len()) && forall|i: int|
        0 <= i < items.len() ==> tagged_string(#[trigger] items[i])
}

/// Whether all strings and arrays in the spine have their tags.
pub open spec fn spine_tagged(o: LeanSpine) -> bool
    decreases o,
{
    tagged_string(o.head) && tagged_array(o.args, o.args_items@.len()) && terms_tagged(
        o.args_items@,
    )
}

/// Whether all strings and arrays in the term have their tags.
pub open spec fn term_tagged(o: LeanTerm) -> bool
    decreases o,
{
    &&& tagged_strings(o.params, o.params_items@)
    &&& tagged_array(o.lets, o.lets_items@.len())
    &&& lets_tagged(o.lets_items@)
    &&& spine_tagged(o.spine)
}

/// Whether all strings and arrays in the let declaration have their tags.
pub open spec fn let_tagged(o: LeanLet) -> bool
    decreases o,
{
    tagged_string(o.var) && tagged_array(o.rules, o.rules_items@.len()) && rules_tagged(
        o.rules_items@,
    )
}

/// Whether all strings and arrays in the rule have their tags.
pub open spec fn rule_tagged(o: LeanRule) -> bool
    decreases o,
{
    &&& spine_tagged(o.lhs)
    &&& spine_tagged(o.rhs)
    &&& tagged_strings(o.attribution, o.attribution_items@)
}

/// Whether all strings and arrays in the type have their tags, and all words for unknown types
/// stand for zero.
pub open spec fn type_tagged(o: LeanType) -> bool
    decreases o,
{
    &&& tagged_array(o.params, o.params_items@.len())
    &&& options_tagged(o.params_items@)
    &&& tagged_array(o.lets, o.lets_items@.len())
    &&& options_tagged(o.lets_items@)
    &&& term_tagged(o.codomain)
}

/// Whether the word stands for zero, or the object holds a type whose strings and arrays have their
/// tags.
pub open spec fn option_tagged(o: LeanOption) -> bool
    decreases o,
{
    match o {
        LeanOption::Scalar(word) => word == 0 || word == 1,
        LeanOption::Object { m_header, val } => type_tagged(val),
    }
}

/// Whether all of the objects have their tags.
pub open spec fn terms_tagged(items: Seq<LeanTerm>) -> bool
    decreases items,
{
    forall|i: int| 0 <= i < items.len() ==> term_tagged(#[trigger] items[i])
}

/// Whether all of the objects have their tags.
pub open spec fn lets_tagged(items: Seq<LeanLet>) -> bool
    decreases items,
{
    forall|i: int| 0 <= i < items.len() ==> let_tagged(#[trigger] items[i])
}

/// Whether all of the objects have their tags.
pub open spec fn rules_tagged(items: Seq<LeanRule>) -> bool
    decreases items,
{
    forall|i: int| 0 <= i < items.len() ==> rule_tagged(#[trigger] items[i])
}

/// Whether all of the objects have their tags.
pub open spec fn options_tagged(items: Seq<LeanOption>) -> bool
    decreases items,
{
    forall|i: int| 0 <= i < items.len() ==> option_tagged(#[trigger] items[i])
}

proof fn lemma_text_read(o: LeanStringObject)
    ensures
        same_text(o, c_text(o.m_data@)),
{
    lemma_first_nul(o.m_data@, 0);
}

proof fn lemma_texts_read(items: Seq<LeanStringObject>)
    ensures
        same_texts(items, texts(items)),
{
    assert forall|i: int| 0 <= i < items.len() implies same_text(
        #[trigger] items[i],
        texts(items)[i],
    ) by {
        lemma_text_read(items[i]);
    }
}

/// A spine is read with all its parts, but for the rules that justify it, just where all its tags
/// are right.
pub proof fn law_spine_read(o: LeanSpine)
    ensures
        is_spine(o, spine_read(o), false),
        spine_readable(o) <==> spine_tagged(o),
    decreases o, 0nat,
{
    lemma_text_read(o.head);
    lemma_terms_read(o.args_items@, o.args_items@.len());
    let vs = terms_read(o.args_items@, o.args_items@.len());
    assert(are_terms(o.args_items@, vs, false));
    assert(terms_readable(o.args_items@, o.args_items@.len()) <==> terms_tagged(o.args_items@));
}

/// A term is read with all its parts, but for the rules that justify it, just where all its tags
/// are right.
pub proof fn law_term_read(o: LeanTerm)
    ensures
        is_term(o, term_read(o), false),
        term_readable(o) <==> term_tagged(o),
    decreases o, 0nat,
{
    lemma_texts_read(o.params_items@);
    lemma_lets_read(o.lets_items@, o.lets_items@.len());
    let vs = lets_read(o.lets_items@, o.lets_items@.len());
    assert(are_lets(o.lets_items@, vs, false));
    assert(lets_readable(o.lets_items@, o.lets_items@.len()) <==> lets_tagged(o.lets_items@));
    law_spine_read(o.spine);
    lemma_tagged_strings(o.params_items@);
}

proof fn lemma_tagged_strings(items: Seq<LeanStringObject>)
    ensures
        strings_ok(items) <==> forall|i: int|
            0 <= i < items.len() ==> tagged_string(#[trigger] items[i]),
{
    if strings_ok(items) {
        assert forall|i: int| 0 <= i < items.len() implies tagged_string(#[trigger] items[i]) by {
            assert(string_ok(items[i]));
        }
    }
}

/// A let declaration is read with all its parts just where all its tags are right.
pub proof fn law_let_read(o: LeanLet)
    ensures
        is_let(o, let_read(o), false),
        let_readable(o) <==> let_tagged(o),
    decreases o, 0nat,
{
    lemma_text_read(o.var);
    lemma_rules_read(o.rules_items@, o.rules_items@.len());
    let vs = rules_read(o.rules_items@, o.rules_items@.len());
    assert(are_rules(o.rules_items@, vs, false));
    assert(rules_readable(o.rules_items@, o.rules_items@.len()) <==> rules_tagged(o.rules_items@));
}

/// A rule is read with all its parts just where all its tags are right.
pub proof fn law_rule_read(o: LeanRule)
    ensures
        is_rule(o, rule_read(o), false),
        rule_readable(o) <==> rule_tagged(o),
    decreases o, 0nat,
{
    law_spine_read(o.lhs);
    law_spine_read(o.rhs);
    lemma_texts_read(o.attribution_items@);
    lemma_tagged_strings(o.attribution_items@);
}

/// A type is read with all its parts, just where all its tags are right: it has as many parameters
/// and let declarations as the object, in the same order, and the type of each is unknown where a
/// word stands in its place, and otherwise the type that the object there holds.
pub proof fn law_type_read(o: LeanType)
    ensures
        is_type(o, type_read(o)),
        type_readable(o) <==> type_tagged(o),
    decreases o, 0nat,
{
    lemma_options_read(o.params_items@, o.params_items@.len());
    lemma_options_read(o.lets_items@, o.lets_items@.len());
    assert(are_options(
        o.params_items@,
        options_read(o.params_items@, o.params_items@.len()),
    ));
    assert(are_options(o.lets_items@, options_read(o.lets_items@, o.lets_items@.len())));
    assert(options_readable(o.params_items@, o.params_items@.len()) <==> options_tagged(
        o.params_items@,
    ));
    assert(options_readable(o.lets_items@, o.lets_items@.len()) <==> options_tagged(
        o.lets_items@,
    ));
    law_term_read(o.codomain);
}

proof fn lemma_option_read(o: LeanOption)
    ensures
        is_option(o, option_read(o)),
        option_readable(o) <==> option_tagged(o),
    decreases o, 0nat,
{
    if let LeanOption::Object { m_header, val } = o {
        law_type_read(val);
    }
}

proof fn lemma_terms_read(items: Seq<LeanTerm>, k: nat)
    requires
        k <= items.len(),
    ensures
        terms_read(items, k).len() == k,
        forall|i: int|
            0 <= i < k ==> is_term(#[trigger] items[i], terms_read(items, k)[i], false),
        terms_readable(items, k) <==> forall|i: int|
            0 <= i < k ==> term_tagged(#[trigger] items[i]),
    decreases items, k,
{
    if k > 0 {
        lemma_terms_read(items, (k - 1) as nat);
        law_term_read(items[k - 1]);
        let (a, b) = (terms_read(items, (k - 1) as nat), terms_read(items, k));
        assert forall|i: int| 0 <= i < k implies is_term(#[trigger] items[i], b[i], false) by {
            if i < k - 1 {
                assert(b[i] == a[i]);
            }
        }
        if terms_readable(items, k) {
            assert(terms_readable(items, (k - 1) as nat));
        }
        if forall|i: int| 0 <= i < k ==> term_tagged(#[trigger] items[i]) {
            assert(term_tagged(items[k - 1]));
        }
    }
}

proof fn lemma_lets_read(items: Seq<LeanLet>, k: nat)
    requires
        k <= items.len(),
    ensures
        lets_read(items, k).len() == k,
        forall|i: int|
            0 <= i < k ==> is_let(#[trigger] items[i], lets_read(items, k)[i], false),
        lets_readable(items, k) <==> forall|i: int|
            0 <= i < k ==> let_tagged(#[trigger] items[i]),
    decreases items, k,
{
    if k > 0 {
        lemma_lets_read(items, (k - 1) as nat);
        law_let_read(items[k - 1]);
        let (a, b) = (lets_read(items, (k - 1) as nat), lets_read(items, k));
        assert forall|i: int| 0 <= i < k implies is_let(#[trigger] items[i], b[i], false) by {
            if i < k - 1 {
                assert(b[i] == a[i]);
            }
        }
        if lets_readable(items, k) {
            assert(lets_readable(items, (k - 1) as nat));
        }
        if forall|i: int| 0 <= i < k ==> let_tagged(#[trigger] items[i]) {
            assert(let_tagged(items[k - 1]));
        }
    }
}

proof fn lemma_rules_read(items: Seq<LeanRule>, k: nat)
    requires
        k <= items.len(),
    ensures
        rules_read(items, k).len() == k,
        forall|i: int|
            0 <= i < k ==> is_rule(#[trigger] items[i], rules_read(items, k)[i], false),
        rules_readable(items, k) <==> forall|i: int|
            0 <= i < k ==> rule_tagged(#[trigger] items[i]),
    decreases items, k,
{
    if k > 0 {
        lemma_rules_read(items, (k - 1) as nat);
        law_rule_read(items[k - 1]);
        let (a, b) = (rules_read(items, (k - 1) as nat), rules_read(items, k));
        assert forall|i: int| 0 <= i < k implies is_rule(#[trigger] items[i], b[i], false) by {
            if i < k - 1 {
                assert(b[i] == a[i]);
            }
        }
        if rules_readable(items, k) {
            assert(rules_readable(items, (k - 1) as nat));
        }
        if forall|i: int| 0 <= i < k ==> rule_tagged(#[trigger] items[i]) {
            assert(rule_tagged(items[k - 1]));
        }
    }
}

proof fn lemma_options_read(items: Seq<LeanOption>, k: nat)
    requires
        k <= items.len(),
    ensures
        options_read(items, k).len() == k,
        forall|i: int|
            0 <= i < k ==> is_option(#[trigger] items[i], options_read(items, k)[i]),
        options_readable(items, k) <==> forall|i: int|
            0 <= i < k ==> option_tagged(#[trigger] items[i]),
    decreases items, k,
{
    if k > 0 {
        lemma_options_read(items, (k - 1) as nat);
        lemma_option_read(items[k - 1]);
        let (a, b) = (options_read(items, (k - 1) as nat), options_read(items, k));
        assert forall|i: int| 0 <= i < k implies is_option(#[trigger] items[i], b[i]) by {
            if i < k - 1 {
                assert(b[i] == a[i]);
            }
        }
        if options_readable(items, k) {
            assert(options_readable(items, (k - 1) as nat));
        }
        if forall|i: int| 0 <= i < k ==> option_tagged(#[trigger] items[i]) {
            assert(option_tagged(items[k - 1]));
        }
    }
}

/// The header of an object with `n` fields.
pub open spec fn fields(n: u8) -> LeanObject {
    LeanObject { m_rc: 1, m_cs_sz: 0, m_other: n, m_tag: 0 }
}

proof fn lemma_texts_laid(items: Seq<LeanStringObject>, ss: Seq<Seq<char>>)
    requires
        strings_laid(items, ss),
        all_plain(ss),
    ensures
        same_texts(items, ss),
        forall|i: int| 0 <= i < items.len() ==> tagged_string(#[trigger] items[i]),
{
    assert forall|i: int| 0 <= i < ss.len() implies same_text(#[trigger] items[i], ss[i])
        && tagged_string(items[i]) by {
        assert(crate::reply::string_laid(items[i], ss[i]));
        assert(!ss[i].contains('\0'));
    }
}

/// The object for a spine has all parts of the spine, with the rules that justify it, and all its
/// tags are right.
pub proof fn law_spine_laid(o: LeanSpine, s: IRSpine)
    requires
        spine_laid(o, s),
        spine_plain(s),
    ensures
        is_spine(o, spine_view(s), true),
        spine_tagged(o),
        tagged_strings(o.premise_rules, o.premise_rules_items@),
        o.m_header == fields(3),
    decreases s, 0nat,
{
    lemma_term_views(s.args@, s.args@.len());
    lemma_terms_laid(o.args_items@, s.args@, s.args@.len());
    assert(are_terms(o.args_items@, term_views(s.args@, s.args@.len()), true));
    assert(terms_tagged(o.args_items@));
    lemma_texts_laid(o.premise_rules_items@, strings(s.premise_rules@));
}

/// The object for a term has all parts of the term, with the rules that justify it, and all its
/// tags are right.
pub proof fn law_term_laid(o: LeanTerm, t: IRTerm)
    requires
        term_laid(o, t),
        term_plain(t),
    ensures
        is_term(o, term_view(t), true),
        term_tagged(o),
        tagged_strings(o.goal_rules, o.goal_rules_items@),
        o.m_header == fields(4),
    decreases t, 0nat,
{
    lemma_let_views(t.lets@, t.lets@.len());
    lemma_lets_laid(o.lets_items@, t.lets@, t.lets@.len());
    assert(are_lets(o.lets_items@, let_views(t.lets@, t.lets@.len()), true));
    assert(lets_tagged(o.lets_items@));
    lemma_texts_laid(o.params_items@, var_names(t.params@));
    lemma_texts_laid(o.goal_rules_items@, strings(t.goal_rules@));
    law_spine_laid(o.spine, t.spine);
}

/// The object for a let declaration has all its parts, and all its tags are right.
pub proof fn law_let_laid(o: LeanLet, l: IRLet)
    requires
        let_laid(o, l),
        let_plain(l),
    ensures
        is_let(o, let_view(l), true),
        let_tagged(o),
        o.m_header == fields(2),
    decreases l, 0nat,
{
    lemma_rule_views(l.rules@, l.rules@.len());
    lemma_rules_laid(o.rules_items@, l.rules@, l.rules@.len());
    assert(are_rules(o.rules_items@, rule_views(l.rules@, l.rules@.len()), true));
    assert(rules_tagged(o.rules_items@));
}

/// The object for a rule has all its parts, and all its tags are right.
pub proof fn law_rule_laid(o: LeanRule, r: IRRule)
    requires
        rule_laid(o, r),
        rule_plain(r),
    ensures
        is_rule(o, rule_view(r), true),
        rule_tagged(o),
        o.m_header == fields(3),
    decreases r, 0nat,
{
    law_spine_laid(o.lhs, r.lhs);
    law_spine_laid(o.rhs, r.rhs);
    lemma_texts_laid(o.attribution_items@, strings(r.attribution@));
}

proof fn lemma_terms_laid(items: Seq<LeanTerm>, vs: Seq<IRTerm>, k: nat)
    requires
        k <= items.len() == vs.len(),
        terms_laid(items, vs, k),
        terms_plain(vs, k),
    ensures
        forall|i: int|
            0 <= i < k ==> is_term(#[trigger] items[i], term_view(vs[i]), true) && term_tagged(
                items[i],
            ),
    decreases vs, k,
{
    if k > 0 {
        lemma_terms_laid(items, vs, (k - 1) as nat);
        law_term_laid(items[k - 1], vs[k - 1]);
    }
}

proof fn lemma_lets_laid(items: Seq<LeanLet>, vs: Seq<IRLet>, k: nat)
    requires
        k <= items.len() == vs.len(),
        lets_laid(items, vs, k),
        lets_plain(vs, k),
    ensures
        forall|i: int|
            0 <= i < k ==> is_let(#[trigger] items[i], let_view(vs[i]), true) && let_tagged(
                items[i],
            ),
    decreases vs, k,
{
    if k > 0 {
        lemma_lets_laid(items, vs, (k - 1) as nat);
        law_let_laid(items[k - 1], vs[k - 1]);
    }
}

proof fn lemma_rules_laid(items: Seq<LeanRule>, vs: Seq<IRRule>, k: nat)
    requires
        k <= items.len() == vs.len(),
        rules_laid(items, vs, k),
        rules_plain(vs, k),
    ensures
        forall|i: int|
            0 <= i < k ==> is_rule(#[trigger] items[i], rule_view(vs[i]), true) && rule_tagged(
                items[i],
            ),
    decreases vs, k,
{
    if k > 0 {
        lemma_rules_laid(items, vs, (k - 1) as nat);
        law_rule_laid(items[k - 1], vs[k - 1]);
    }
}

} // verus!
