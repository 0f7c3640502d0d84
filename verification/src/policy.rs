//! The per-field diff policy, read off a field's declaration: whether a
//! field is excluded from diffing (`should_ignore`) and whether it is a
//! transparent wrapper whose inner value substitutes for it (`into_from`).
//!
//! A field declaration is modelled by plain values: the identifier
//! segments of its type path, and for each attribute its path segments
//! and the tokens of its parenthesized argument list. The diff engine's
//! fixed field-order table is built from these answers when a document
//! type is laid out, never per call.

use vstd::prelude::*;
use crate::doc::str_eq;

verus! {

broadcast use vstd::std_specs::vec::group_vec_axioms;

/// One attribute of a field declaration: its path segments and, when it
/// is written with a parenthesized argument list, those tokens.
#[derive(Debug, Clone, PartialEq, Eq)]
pub struct FieldAttr {
    /// The attribute's path segments, e.g. `["diff"]`.
    pub path: Vec<String>,
    /// The tokens inside the attribute's parentheses, if any.
    pub paren_tokens: Option<Vec<String>>,
}

/// A type path that names `Option`, plainly or through `std`/`core`;
/// detecting it avoids wrapping an already optional value twice.
pub open spec fn is_option_path(s: Seq<String>) -> bool {
    ||| (s.len() == 1 && s[0]@ == "Option"@)
    ||| (s.len() == 3 && s[0]@ == "std"@ && s[1]@ == "option"@ && s[2]@ == "Option"@)
    ||| (s.len() == 3 && s[0]@ == "core"@ && s[1]@ == "option"@ && s[2]@ == "Option"@)
}

/// The attribute asks for `name`: it is a `diff` attribute whose
/// parenthesized tokens include `name`.
pub open spec fn attr_requests(a: FieldAttr, name: Seq<char>) -> bool {
    &&& a.path@.len() == 1
    &&& a.path@[0]@ == "diff"@
    &&& (a.paren_tokens matches Some(ts) && exists|i: int|
        0 <= i < ts@.len() && (#[trigger] ts@[i])@ == name)
}

/// The last segment of a type path that names `Option`, in any of its
/// three spellings; nothing for any other type.
pub fn extract_option_segment(path: &Vec<String>) -> (r: Option<&String>)
    ensures
        (match r {
            Some(s) => is_option_path(path@) && *s == path@[path@.len() - 1],
            None => !is_option_path(path@),
        }),
{
    if path.len() == 1 && str_eq(path[0].as_str(), "Option") {
        Some(&path[path.len() - 1])
    } else if path.len() == 3 && str_eq(path[0].as_str(), "std") && str_eq(
        path[1].as_str(),
        "option",
    ) && str_eq(path[2].as_str(), "Option") {
        Some(&path[path.len() - 1])
    } else if path.len() == 3 && str_eq(path[0].as_str(), "core") && str_eq(
        path[1].as_str(),
        "option",
    ) && str_eq(path[2].as_str(), "Option") {
        Some(&path[path.len() - 1])
    } else {
        None
    }
}

/// Whether any attribute of the field asks for `name`.
#[verifier::loop_isolation(false)]
fn check_attr_on_field(attrs: &Vec<FieldAttr>, name: &str) -> (r: bool)
    ensures
        r == (exists|i: int| 0 <= i < attrs@.len() && attr_requests(
            #[trigger] attrs@[i],
            name@,
        )),
{
    let mut i: usize = 0;
    while i < attrs.len()
        invariant
            i <= attrs@.len(),
            forall|q: int| 0 <= q < i ==> !attr_requests(#[trigger] attrs@[q], name@),
        decreases attrs@.len() - i,
    {
        let a = &attrs[i];
        if a.path.len() == 1 && str_eq(a.path[0].as_str(), "diff") {
            match &a.paren_tokens {
                Some(ts) => {
                    let mut j: usize = 0;
                    while j < ts.len()
                        invariant
                            j <= ts@.len(),
                            forall|q: int| 0 <= q < j ==> (#[trigger] ts@[q])@ != name@,
                        decreases ts@.len() - j,
                    {
                        if str_eq(ts[j].as_str(), name) {
                            proof {
                                assert(attr_requests(attrs@[i as int], name@));
                            }
                            return true;
                        }
                        j += 1;
                    }
                },
                None => {},
            }
        }
        i += 1;
    }
    false
}

/// Whether the field is excluded from diffing.
pub fn should_ignore(attrs: &Vec<FieldAttr>) -> (r: bool)
    ensures
        r == (exists|i: int| 0 <= i < attrs@.len() && attr_requests(
            #[trigger] attrs@[i],
            "should_ignore"@,
        )),
{
    check_attr_on_field(attrs, "should_ignore")
}

/// Whether the field is a transparent wrapper for diff purposes.
pub fn into_from(attrs: &Vec<FieldAttr>) -> (r: bool)
    ensures
        r == (exists|i: int| 0 <= i < attrs@.len() && attr_requests(
            #[trigger] attrs@[i],
            "into_from"@,
        )),
{
    check_attr_on_field(attrs, "into_from")
}

} // verus!

verus! {

/// One field of a diffed type as declared: its wire name and its
/// attributes. A declaration list is written once, when the type is laid
/// out, and drives the diff engine's fixed field order.
#[derive(Debug, Clone, PartialEq, Eq)]
pub struct FieldDecl {
    /// The field's name in the diff stream.
    pub name: String,
    /// The attributes written on the field.
    pub attrs: Vec<FieldAttr>,
}

/// The policy keeps a field in the diff walk unless an attribute
/// excludes it.
pub open spec fn policy_keeps(d: FieldDecl) -> bool {
    !(exists|i: int| 0 <= i < d.attrs@.len() && attr_requests(
        #[trigger] d.attrs@[i],
        "should_ignore"@,
    ))
}

/// The policy treats a field as a transparent wrapper whose inner value
/// substitutes for it.
pub open spec fn policy_wraps(d: FieldDecl) -> bool {
    exists|i: int| 0 <= i < d.attrs@.len() && attr_requests(
        #[trigger] d.attrs@[i],
        "into_from"@,
    )
}

/// One row of the built table: a kept field's wire name and whether it
/// is diffed through its inner value.
#[derive(Debug, Clone, PartialEq, Eq)]
pub struct FieldRule {
    /// The field's name in the diff stream.
    pub name: String,
    /// Whether the field is a transparent wrapper.
    pub transparent: bool,
}

/// The table rows the policy derives from the declarations from index
/// `i` on: the kept fields in declaration order, each with its
/// transparent-wrapper verdict.
pub open spec fn kept_rules(decls: Seq<FieldDecl>, i: int) -> Seq<(Seq<char>, bool)>
    decreases decls.len() - i,
{
    if i < 0 || i >= decls.len() {
        Seq::empty()
    } else if policy_keeps(decls[i]) {
        seq![(decls[i].name@, policy_wraps(decls[i]))] + kept_rules(decls, i + 1)
    } else {
        kept_rules(decls, i + 1)
    }
}

/// Views of the table rows from index `i` on.
pub open spec fn rule_views(rules: Seq<FieldRule>, i: int) -> Seq<(Seq<char>, bool)>
    decreases rules.len() - i,
{
    if i < 0 || i >= rules.len() {
        Seq::empty()
    } else {
        seq![(rules[i].name@, rules[i].transparent)] + rule_views(rules, i + 1)
    }
}

/// `rule_views` read pointwise.
pub proof fn lemma_rule_views(rules: Seq<FieldRule>, i: int)
    requires
        0 <= i <= rules.len(),
    ensures
        rule_views(rules, i).len() == rules.len() - i,
        forall|j: int| i <= j < rules.len() ==> rule_views(rules, i)[j - i] == ((
        #[trigger] rules[j]).name@, rules[j].transparent),
    decreases rules.len() - i,
{
    if i < rules.len() {
        lemma_rule_views(rules, i + 1);
    }
}

/// Builds the diff engine's fixed field table: for each declared field,
/// whether it is included at all and whether it is diffed through its
/// inner value — both read off the field's attributes, in declaration
/// order.
#[verifier::loop_isolation(false)]
pub fn field_order(decls: &Vec<FieldDecl>) -> (r: Vec<FieldRule>)
    ensures
        rule_views(r@, 0) == kept_rules(decls@, 0),
{
    let mut out: Vec<FieldRule> = Vec::new();
    let mut i: usize = 0;
    proof {
        lemma_rule_views(out@, 0);
    }
    while i < decls.len()
        invariant
            i <= decls@.len(),
            kept_rules(decls@, 0) =~= rule_views(out@, 0) + kept_rules(decls@, i as int),
        decreases decls@.len() - i,
    {
        if !should_ignore(&decls[i].attrs) {
            let transparent = into_from(&decls[i].attrs);
            let ghost prev = out@;
            out.push(FieldRule { name: decls[i].name.clone(), transparent });
            proof {
                lemma_rule_views(prev, 0);
                lemma_rule_views(out@, 0);
                assert forall|q: int| 0 <= q < out@.len() implies rule_views(out@, 0)[q] == (
                rule_views(prev, 0) + seq![
                    (decls@[i as int].name@, policy_wraps(decls@[i as int])),
                ])[q] by {
                    assert(rule_views(out@, 0)[q] == (out@[q].name@, out@[q].transparent));
                    if q < prev.len() {
                        assert(out@[q] == prev[q]);
                        assert(rule_views(prev, 0)[q] == (prev[q].name@, prev[q].transparent));
                    }
                }
                assert(rule_views(out@, 0) =~= rule_views(prev, 0) + seq![
                    (decls@[i as int].name@, policy_wraps(decls@[i as int])),
                ]);
                assert(policy_keeps(decls@[i as int]));
            }
        } else {
            proof {
                assert(!policy_keeps(decls@[i as int]));
            }
        }
        i += 1;
    }
    proof {
        assert(kept_rules(decls@, i as int) =~= Seq::<(Seq<char>, bool)>::empty());
        assert(rule_views(out@, 0) =~= kept_rules(decls@, 0));
    }
    out
}

/// The document type's declaration list: its eight fields, in the order
/// they are laid out, none excluded and none a transparent wrapper. The
/// resulting table is the order `crate::diff::doc_to_node` walks.
pub fn document_field_order() -> (r: Vec<FieldRule>)
    ensures
        rule_views(r@, 0) =~= seq![
            ("context"@, false),
            ("id"@, false),
            ("created"@, false),
            ("updated"@, false),
            ("public_key"@, false),
            ("auth"@, false),
            ("services"@, false),
            ("metadata"@, false),
        ],
{
    let mut decls: Vec<FieldDecl> = Vec::new();
    decls.push(FieldDecl { name: "context".to_owned(), attrs: Vec::new() });
    decls.push(FieldDecl { name: "id".to_owned(), attrs: Vec::new() });
    decls.push(FieldDecl { name: "created".to_owned(), attrs: Vec::new() });
    decls.push(FieldDecl { name: "updated".to_owned(), attrs: Vec::new() });
    decls.push(FieldDecl { name: "public_key".to_owned(), attrs: Vec::new() });
    decls.push(FieldDecl { name: "auth".to_owned(), attrs: Vec::new() });
    decls.push(FieldDecl { name: "services".to_owned(), attrs: Vec::new() });
    decls.push(FieldDecl { name: "metadata".to_owned(), attrs: Vec::new() });
    let r = field_order(&decls);
    proof {
        assert forall|k: int| 0 <= k < decls@.len() implies policy_keeps(
            #[trigger] decls@[k],
        ) && !policy_wraps(decls@[k]) by {
            assert(decls@[k].attrs@.len() == 0);
        }
        assert(decls@.len() == 8);
        assert(kept_rules(decls@, 8) =~= Seq::<(Seq<char>, bool)>::empty());
        assert(kept_rules(decls@, 7) =~= seq![(decls@[7].name@, false)] + kept_rules(
            decls@,
            8,
        ));
        assert(kept_rules(decls@, 7) =~= seq![(decls@[7].name@, false)]);
        assert(kept_rules(decls@, 6) =~= seq![(decls@[6].name@, false)] + kept_rules(
            decls@,
            7,
        ));
        assert(kept_rules(decls@, 5) =~= seq![(decls@[5].name@, false)] + kept_rules(
            decls@,
            6,
        ));
        assert(kept_rules(decls@, 4) =~= seq![(decls@[4].name@, false)] + kept_rules(
            decls@,
            5,
        ));
        assert(kept_rules(decls@, 3) =~= seq![(decls@[3].name@, false)] + kept_rules(
            decls@,
            4,
        ));
        assert(kept_rules(decls@, 2) =~= seq![(decls@[2].name@, false)] + kept_rules(
            decls@,
            3,
        ));
        assert(kept_rules(decls@, 1) =~= seq![(decls@[1].name@, false)] + kept_rules(
            decls@,
            2,
        ));
        assert(kept_rules(decls@, 0) =~= seq![(decls@[0].name@, false)] + kept_rules(
            decls@,
            1,
        ));
        assert(rule_views(r@, 0) =~= seq![
            ("context"@, false),
            ("id"@, false),
            ("created"@, false),
            ("updated"@, false),
            ("public_key"@, false),
            ("auth"@, false),
            ("services"@, false),
            ("metadata"@, false),
        ]);
    }
    r
}

} // verus!
