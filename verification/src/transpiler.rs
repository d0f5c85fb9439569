//! The nesting-flattening transpiler and the minifying serializer.
//!
//! [`TranspiledCss::transpile`] walks a parsed tree depth first, rewriting
//! the parent-selector token `&` against the accumulated selector context,
//! hoisting and merging nested at-rules, and merging rules that share a key;
//! [`TranspiledCss::to_style_string`] renders the flat rules as compact CSS
//! text.  Every step is specified by a spec function over the models of
//! [`crate::ast`].

use vstd::prelude::*;
use vstd::string::StrSliceExecFns;
use vstd::string::StringExecFns;
use crate::ast::at_model;
use crate::ast::decl_model;
use crate::ast::decls_model;
use crate::ast::lemma_decls_model;
use crate::ast::lemma_decls_model_concat;
use crate::ast::lemma_decls_model_push;
use crate::ast::qual_model;
use crate::ast::AtM;
use crate::ast::AtRule;
use crate::ast::Declaration;
use crate::ast::DeclM;
use crate::ast::Property;
use crate::ast::PropM;
use crate::ast::QualifiedRule;
use crate::ast::QualM;
use crate::ast::RuntimeCss;
use crate::ast::Selectors;
use crate::cursor::lemma_paren_run_len;
use crate::cursor::paren_take;
use crate::cursor::sel_loop;
use crate::cursor::Cursor;
use crate::cursor::SelOut;
use crate::text::join_strings;
use crate::text::join_with;
use crate::text::push_char;
use crate::text::seq_views;
use crate::text::str_eq;
use crate::text::str_to_chars;

verus! {

/// The parent selector expression that replaces `&`: a single parent
/// selector is used verbatim, several are wrapped as `:is(s1, s2, ...)`.
pub open spec fn parent_expr(sels: Seq<Seq<char>>) -> Seq<char> {
    if sels.len() == 1 {
        sels[0]
    } else {
        seq![':', 'i', 's', '('] + join_with(sels, seq![',', ' ']) + seq![')']
    }
}

/// `sel` with every `&` replaced by `p`.
pub open spec fn subst(sel: Seq<char>, p: Seq<char>) -> Seq<char>
    decreases sel.len(),
{
    if sel.len() == 0 {
        Seq::<char>::empty()
    } else {
        (if sel[0] == '&' {
            p
        } else {
            seq![sel[0]]
        }) + subst(sel.drop_first(), p)
    }
}

/// Substitution over a whole selector group, keeping every selector.
pub open spec fn subst_all(ss: Seq<Seq<char>>, p: Seq<char>) -> Seq<Seq<char>>
    decreases ss.len(),
{
    if ss.len() == 0 {
        Seq::<Seq<char>>::empty()
    } else {
        seq![subst(ss[0], p)] + subst_all(ss.drop_first(), p)
    }
}

/// Substitution over the selector group of a nested rule: a selector that
/// does not begin with `&` is dropped.
pub open spec fn subst_sels(ss: Seq<Seq<char>>, p: Seq<char>) -> Seq<Seq<char>>
    decreases ss.len(),
{
    if ss.len() == 0 {
        Seq::<Seq<char>>::empty()
    } else {
        (if ss[0].len() > 0 && ss[0][0] == '&' {
            seq![subst(ss[0], p)]
        } else {
            Seq::<Seq<char>>::empty()
        }) + subst_sels(ss.drop_first(), p)
    }
}

/// An at-rule value without its single outer parenthesis pair — when the
/// whole value is one parenthesised group; otherwise the value unchanged.
pub open spec fn strip_value(v: Seq<char>) -> Seq<char> {
    match paren_take(v) {
        Some(pr) => if pr.1.len() == 0 {
            pr.0.subrange(1, pr.0.len() - 1)
        } else {
            v
        },
        None => v,
    }
}

/// Two same-named at-rule values combined by logical and.
pub open spec fn merge_values(a: Seq<char>, b: Seq<char>) -> Seq<char> {
    seq!['('] + strip_value(a) + seq![')', ' ', 'a', 'n', 'd', ' ', '('] + strip_value(b)
        + seq![')']
}

/// A new at-rule entering the at-rule stack: merged into the top entry when
/// the names coincide, pushed as a new entry otherwise.
pub open spec fn push_at(
    ats: Seq<(Seq<char>, Seq<char>)>,
    name: Seq<char>,
    value: Seq<char>,
) -> Seq<(Seq<char>, Seq<char>)> {
    if ats.len() > 0 && ats.last().0 == name {
        ats.drop_last().push((name, merge_values(ats.last().1, value)))
    } else {
        ats.push((name, value))
    }
}

/// A declaration wrapped in every pending at-rule, innermost last.
pub open spec fn wrap_rules(ats: Seq<(Seq<char>, Seq<char>)>, d: DeclM) -> DeclM
    decreases ats.len(),
{
    if ats.len() == 0 {
        d
    } else {
        wrap_rules(
            ats.drop_last(),
            DeclM::At(
                AtM { name: ats.last().0, value: ats.last().1, block: Option::Some(seq![d]) },
            ),
        )
    }
}

/// The name of the at-rule that is a pure selector-composition vehicle.
pub open spec fn nest_kw() -> Seq<char> {
    seq!['n', 'e', 's', 't']
}

/// The depth-first flattening walk over a declaration list, under the
/// selector context `sels` and the pending at-rule stack `ats`.  A property
/// becomes one qualified rule wrapped in the pending at-rules; a nested
/// qualified rule substitutes `&` and recurses; `@nest` rewrites the
/// selector context (the block is dropped when its value fails to parse as
/// selectors); any other at-rule enters the stack.  After the first nested
/// rule, bare properties at the same level are ignored.
pub open spec fn trans_list(
    sels: Seq<Seq<char>>,
    ats: Seq<(Seq<char>, Seq<char>)>,
    ds: Seq<DeclM>,
    nest: bool,
) -> Seq<DeclM>
    decreases ds,
{
    if ds.len() == 0 {
        Seq::<DeclM>::empty()
    } else {
        match ds[0] {
            DeclM::Prop(p) => (if nest {
                Seq::<DeclM>::empty()
            } else {
                seq![
                    wrap_rules(
                        ats,
                        DeclM::Qual(QualM { sels, block: seq![DeclM::Prop(p)] }),
                    ),
                ]
            }) + trans_list(sels, ats, ds.drop_first(), nest),
            DeclM::At(a) => trans_at(sels, ats, a) + trans_list(sels, ats, ds.drop_first(), true),
            DeclM::Qual(q) => trans_qual(sels, ats, q) + trans_list(
                sels,
                ats,
                ds.drop_first(),
                true,
            ),
        }
    }
}

/// One nested at-rule of the walk.
pub open spec fn trans_at(
    sels: Seq<Seq<char>>,
    ats: Seq<(Seq<char>, Seq<char>)>,
    a: AtM,
) -> Seq<DeclM>
    decreases a,
    via trans_at_dec
{
    match a.block {
        Option::None => Seq::<DeclM>::empty(),
        Option::Some(block) => if a.name == nest_kw() {
            match sel_loop(seq![Seq::<char>::empty()], a.value + seq!['{', '}']) {
                SelOut::Found(ss, _) => trans_list(
                    subst_all(ss, parent_expr(sels)),
                    ats,
                    block,
                    false,
                ),
                SelOut::Failed(_) => Seq::<DeclM>::empty(),
            }
        } else {
            trans_list(sels, push_at(ats, a.name, a.value), block, false)
        },
    }
}

#[via_fn]
proof fn trans_at_dec(sels: Seq<Seq<char>>, ats: Seq<(Seq<char>, Seq<char>)>, a: AtM) {
    match a.block {
        Option::Some(block) => {
            assert(decreases_to!(a => a.block));
            assert(decreases_to!(a.block => block));
        },
        Option::None => {},
    }
}

/// The views of a sequence of name-value string pairs.
pub open spec fn ats_views(v: Seq<(String, String)>) -> Seq<(Seq<char>, Seq<char>)> {
    v.map_values(|p: (String, String)| (p.0@, p.1@))
}

/// A fresh copy of a vector of strings.
fn clone_strings(v: &Vec<String>) -> (r: Vec<String>)
    ensures
        r@ == v@,
{
    let mut r: Vec<String> = Vec::new();
    let mut i: usize = 0;
    while i < v.len()
        invariant
            i <= v@.len(),
            r@ == v@.subrange(0, i as int),
        decreases v@.len() - i,
    {
        r.push(v[i].clone());
        proof {
            assert(r@ =~= v@.subrange(0, i as int + 1));
        }
        i = i + 1;
    }
    proof {
        assert(v@.subrange(0, v@.len() as int) =~= v@);
    }
    r
}

/// A fresh copy of an at-rule stack.
fn clone_ats(v: &Vec<(String, String)>) -> (r: Vec<(String, String)>)
    ensures
        r@ == v@,
{
    let mut r: Vec<(String, String)> = Vec::new();
    let mut i: usize = 0;
    while i < v.len()
        invariant
            i <= v@.len(),
            r@ == v@.subrange(0, i as int),
        decreases v@.len() - i,
    {
        let p = &v[i];
        r.push((p.0.clone(), p.1.clone()));
        proof {
            assert(r@ =~= v@.subrange(0, i as int + 1));
        }
        i = i + 1;
    }
    proof {
        assert(v@.subrange(0, v@.len() as int) =~= v@);
    }
    r
}

/// `sel` with every `&` replaced by `p`, as a fresh string.
fn subst_str(sel: &str, p: &str) -> (r: String)
    ensures
        r@ == subst(sel@, p@),
{
    let cs = str_to_chars(sel);
    let mut out = String::new();
    let mut i: usize = 0;
    proof {
        assert(sel@.skip(0) =~= sel@);
        assert(out@ + subst(sel@, p@) =~= subst(sel@, p@));
    }
    while i < cs.len()
        invariant
            i <= cs@.len(),
            cs@ == sel@,
            subst(sel@, p@) == out@ + subst(sel@.skip(i as int), p@),
        decreases cs@.len() - i,
    {
        let c = cs[i];
        proof {
            assert(sel@.skip(i as int)[0] == c);
            assert(sel@.skip(i as int).drop_first() =~= sel@.skip(i as int + 1));
        }
        if c == '&' {
            out.append(p);
        } else {
            push_char(&mut out, c);
        }
        i = i + 1;
    }
    proof {
        assert(sel@.skip(sel@.len() as int) =~= Seq::<char>::empty());
        assert(out@ + Seq::<char>::empty() =~= out@);
    }
    out
}

/// The parent selector expression, as a fresh string.
fn parent_expr_str(selectors: &Selectors) -> (r: String)
    ensures
        r@ == parent_expr(selectors.model()),
{
    if selectors.0.len() == 1 {
        let r = selectors.0[0].clone();
        proof {
            assert(selectors.model()[0] == selectors.0@[0]@);
        }
        r
    } else {
        let mut r = String::from_str(":is(");
        let j = join_strings(&selectors.0, ", ");
        r.append(j.as_str());
        push_char(&mut r, ')');
        proof {
            reveal_strlit(":is(");
            reveal_strlit(", ");
            assert(":is("@ =~= seq![':', 'i', 's', '(']);
            assert(", "@ =~= seq![',', ' ']);
            assert(r@ =~= seq![':', 'i', 's', '('] + join_with(
                selectors.model(),
                seq![',', ' '],
            ) + seq![')']);
        }
        r
    }
}

/// Substitution applied to every selector of a group.
fn subst_all_str(ss: &Selectors, p: &str) -> (r: Selectors)
    ensures
        r.model() == subst_all(ss.model(), p@),
{
    let mut out: Vec<String> = Vec::new();
    let mut i: usize = 0;
    proof {
        assert(ss.model().skip(0) =~= ss.model());
        assert(seq_views(out@) =~= Seq::<Seq<char>>::empty());
        assert(seq_views(out@) + subst_all(ss.model(), p@) =~= subst_all(ss.model(), p@));
    }
    while i < ss.0.len()
        invariant
            i <= ss.0@.len(),
            subst_all(ss.model(), p@) == seq_views(out@) + subst_all(
                ss.model().skip(i as int),
                p@,
            ),
        decreases ss.0@.len() - i,
    {
        let ghost v0 = seq_views(out@);
        let ghost tail = subst_all(ss.model().skip(i as int + 1), p@);
        proof {
            assert(ss.model().skip(i as int)[0] == ss.0@[i as int]@);
            assert(ss.model().skip(i as int).drop_first() =~= ss.model().skip(i as int + 1));
        }
        let s = subst_str(ss.0[i].as_str(), p);
        let ghost x = s@;
        out.push(s);
        proof {
            assert(seq_views(out@) =~= v0.push(x));
            assert(v0 + (seq![x] + tail) =~= v0.push(x) + tail);
        }
        i = i + 1;
    }
    proof {
        assert(ss.model().skip(ss.model().len() as int) =~= Seq::<Seq<char>>::empty());
        assert(seq_views(out@) + Seq::<Seq<char>>::empty() =~= seq_views(out@));
    }
    Selectors(out)
}

/// Substitution applied to the kept selectors of a nested rule's group.
fn subst_sels_str(ss: &Selectors, p: &str) -> (r: Selectors)
    ensures
        r.model() == subst_sels(ss.model(), p@),
{
    let mut out: Vec<String> = Vec::new();
    let mut i: usize = 0;
    proof {
        assert(ss.model().skip(0) =~= ss.model());
        assert(seq_views(out@) =~= Seq::<Seq<char>>::empty());
        assert(seq_views(out@) + subst_sels(ss.model(), p@) =~= subst_sels(ss.model(), p@));
    }
    while i < ss.0.len()
        invariant
            i <= ss.0@.len(),
            subst_sels(ss.model(), p@) == seq_views(out@) + subst_sels(
                ss.model().skip(i as int),
                p@,
            ),
        decreases ss.0@.len() - i,
    {
        let ghost v0 = seq_views(out@);
        let ghost tail = subst_sels(ss.model().skip(i as int + 1), p@);
        proof {
            assert(ss.model().skip(i as int)[0] == ss.0@[i as int]@);
            assert(ss.model().skip(i as int).drop_first() =~= ss.model().skip(i as int + 1));
        }
        let keep = ss.0[i].as_str().unicode_len() > 0 && ss.0[i].as_str().get_char(0) == '&';
        if keep {
            let s = subst_str(ss.0[i].as_str(), p);
            let ghost x = s@;
            out.push(s);
            proof {
                assert(seq_views(out@) =~= v0.push(x));
                assert(v0 + (seq![x] + tail) =~= v0.push(x) + tail);
            }
        } else {
            proof {
                assert(v0 + (Seq::<Seq<char>>::empty() + tail) =~= v0 + tail);
            }
        }
        i = i + 1;
    }
    proof {
        assert(ss.model().skip(ss.model().len() as int) =~= Seq::<Seq<char>>::empty());
        assert(seq_views(out@) + Seq::<Seq<char>>::empty() =~= seq_views(out@));
    }
    Selectors(out)
}

/// An at-rule value with its single outer parenthesis pair removed, when
/// the whole value is one parenthesised group.
fn strip_value_str(v: &str) -> (r: String)
    ensures
        r@ == strip_value(v@),
{
    let mut cursor = Cursor::new(v);
    match cursor.take_paren() {
        Some(t) => {
            if cursor.is_empty() {
                proof {
                    if v@.len() > 0 && v@[0] == '(' {
                        lemma_paren_run_len(
                            seq![Seq::<char>::empty()],
                            Seq::<char>::empty(),
                            v@.drop_first(),
                        );
                    }
                }
                let n = t.as_str().unicode_len();
                let r = t.as_str().substring_char(1, n - 1);
                r.to_owned()
            } else {
                v.to_owned()
            }
        },
        None => v.to_owned(),
    }
}

/// The at-rule stack after one more at-rule, as [`push_at`] describes.
fn push_at_vec(ats: &Vec<(String, String)>, name: &String, value: &String) -> (r: Vec<
    (String, String),
>)
    ensures
        ats_views(r@) == push_at(ats_views(ats@), name@, value@),
{
    let mut r = clone_ats(ats);
    let n = r.len();
    if n > 0 && str_eq(r[n - 1].0.as_str(), name.as_str()) {
        let last = match r.pop() {
            Some(l) => l,
            None => {
                proof {
                    assert(false);
                }
                (String::new(), String::new())
            },
        };
        let sa = strip_value_str(last.1.as_str());
        let sb = strip_value_str(value.as_str());
        let mut merged = String::new();
        push_char(&mut merged, '(');
        merged.append(sa.as_str());
        merged.append(") and (");
        merged.append(sb.as_str());
        push_char(&mut merged, ')');
        proof {
            reveal_strlit(") and (");
            assert(") and ("@ =~= seq![')', ' ', 'a', 'n', 'd', ' ', '(']);
            assert(ats_views(ats@).last().1 == last.1@);
            assert(merged@ =~= merge_values(ats_views(ats@).last().1, value@));
        }
        r.push((name.clone(), merged));
        proof {
            assert(ats_views(r@) =~= ats_views(ats@).drop_last().push(
                (name@, merge_values(ats_views(ats@).last().1, value@)),
            ));
        }
    } else {
        r.push((name.clone(), value.clone()));
        proof {
            assert(ats_views(r@) =~= ats_views(ats@).push((name@, value@)));
        }
    }
    r
}

/// The flattening walk, as [`trans_list`] describes.
fn transpile_declarations(
    selectors: &Selectors,
    at_rules: &Vec<(String, String)>,
    declarations: &Vec<Declaration>,
) -> (r: Vec<Declaration>)
    ensures
        decls_model(r@) == trans_list(
            selectors.model(),
            ats_views(at_rules@),
            decls_model(declarations@),
            false,
        ),
    decreases declarations,
{
    let ghost sels = selectors.model();
    let ghost ats = ats_views(at_rules@);
    let ghost full = decls_model(declarations@);
    let mut return_declarations: Vec<Declaration> = Vec::new();
    let mut nest_flag = false;
    let mut i: usize = 0;
    proof {
        lemma_decls_model(declarations@);
        assert(full.skip(0) =~= full);
        assert(decls_model(return_declarations@) =~= Seq::<DeclM>::empty());
        assert(decls_model(return_declarations@) + trans_list(sels, ats, full, false)
            =~= trans_list(sels, ats, full, false));
    }
    while i < declarations.len()
        invariant
            i <= declarations@.len(),
            sels == selectors.model(),
            ats == ats_views(at_rules@),
            full == decls_model(declarations@),
            full.len() == declarations@.len(),
            forall|k: int|
                0 <= k < declarations@.len() ==> full[k] == decl_model(declarations@[k]),
            trans_list(sels, ats, full, false) == decls_model(return_declarations@)
                + trans_list(sels, ats, full.skip(i as int), nest_flag),
        decreases declarations@.len() - i,
    {
        let ghost out0 = decls_model(return_declarations@);
        proof {
            assert(full.skip(i as int)[0] == decl_model(declarations@[i as int]));
            assert(full.skip(i as int).drop_first() =~= full.skip(i as int + 1));
            assert(decreases_to!(declarations => declarations@));
            assert(decreases_to!(declarations@ => declarations@[i as int]));
        }
        match &declarations[i] {
            Declaration::Property(property) => {
                let ghost pm = DeclM::Prop(
                    PropM { name: property.property@, value: property.value@ },
                );
                let ghost tail = trans_list(sels, ats, full.skip(i as int + 1), nest_flag);
                if !nest_flag {
                    let mut block0: Vec<Declaration> = Vec::new();
                    block0.push(
                        Declaration::Property(
                            Property {
                                property: property.property.clone(),
                                value: property.value.clone(),
                            },
                        ),
                    );
                    proof {
                        assert(block0@.drop_first() =~= Seq::<Declaration>::empty());
                        assert(decls_model(block0@.drop_first()) =~= Seq::<DeclM>::empty());
                        assert(decls_model(block0@) =~= seq![pm]);
                    }
                    let cloned = clone_strings(&selectors.0);
                    let mut rule = Declaration::QualifiedRule(
                        QualifiedRule { selectors: Selectors(cloned), block: block0 },
                    );
                    let ghost base = DeclM::Qual(QualM { sels, block: seq![pm] });
                    proof {
                        assert(decl_model(rule) == base);
                        assert(ats.subrange(0, at_rules@.len() as int) =~= ats);
                    }
                    let mut k = at_rules.len();
                    while k > 0
                        invariant
                            k <= at_rules@.len(),
                            ats == ats_views(at_rules@),
                            wrap_rules(ats, base) == wrap_rules(
                                ats.subrange(0, k as int),
                                decl_model(rule),
                            ),
                        decreases k,
                    {
                        k = k - 1;
                        let entry = &at_rules[k];
                        let ghost rm = decl_model(rule);
                        let mut inner: Vec<Declaration> = Vec::new();
                        inner.push(rule);
                        proof {
                            assert(inner@.drop_first() =~= Seq::<Declaration>::empty());
                            assert(decls_model(inner@.drop_first()) =~= Seq::<DeclM>::empty());
                            assert(decls_model(inner@) =~= seq![rm]);
                        }
                        rule = Declaration::AtRule(
                            AtRule {
                                rule_name: entry.0.clone(),
                                rule_value: entry.1.clone(),
                                block: Some(inner),
                            },
                        );
                        proof {
                            assert(ats[k as int] == (at_rules@[k as int].0@, at_rules@[k as int].1@));
                            assert(decl_model(rule) == DeclM::At(
                                AtM {
                                    name: ats[k as int].0,
                                    value: ats[k as int].1,
                                    block: Option::Some(seq![rm]),
                                },
                            ));
                            assert(ats.subrange(0, k as int + 1).drop_last() =~= ats.subrange(
                                0,
                                k as int,
                            ));
                            assert(ats.subrange(0, k as int + 1).last() == ats[k as int]);
                        }
                    }
                    proof {
                        assert(ats.subrange(0, 0) =~= Seq::<(Seq<char>, Seq<char>)>::empty());
                        assert(decl_model(rule) == wrap_rules(ats, base));
                    }
                    let ghost rm2 = decl_model(rule);
                    let ghost out_pre = return_declarations@;
                    return_declarations.push(rule);
                    proof {
                        lemma_decls_model_push(out_pre, return_declarations@.last());
                        assert(return_declarations@ =~= out_pre.push(
                            return_declarations@.last(),
                        ));
                        assert(decls_model(return_declarations@) == out0.push(rm2));
                        assert(out0 + (seq![rm2] + tail) =~= out0.push(rm2) + tail);
                    }
                } else {
                    proof {
                        assert(out0 + (Seq::<DeclM>::empty() + tail) =~= out0 + tail);
                    }
                }
            },
            Declaration::AtRule(at_rule) => {
                let ghost am = at_model(*at_rule);
                let ghost tail = trans_list(sels, ats, full.skip(i as int + 1), true);
                proof {
                    reveal_strlit("nest");
                    assert("nest"@ =~= seq!['n', 'e', 's', 't']);
                    assert(decreases_to!(declarations@[i as int] => *at_rule));
                    assert(decreases_to!(*at_rule => at_rule.block));
                }
                let is_nest = str_eq(at_rule.rule_name.as_str(), "nest");
                if is_nest {
                    let mut content = at_rule.rule_value.clone();
                    content.append("{}");
                    proof {
                        reveal_strlit("{}");
                        assert("{}"@ =~= seq!['{', '}']);
                        assert(content@ == am.value + seq!['{', '}']);
                    }
                    let mut cursor = Cursor::new(content.as_str());
                    match cursor.parse_selectors() {
                        Some(at_rule_selectors) => {
                            let parent = parent_expr_str(selectors);
                            let new_selectors = subst_all_str(
                                &at_rule_selectors,
                                parent.as_str(),
                            );
                            match &at_rule.block {
                                Some(b) => {
                                    proof {
                                        assert(decreases_to!(at_rule.block => *b));
                                    }
                                    let mut inner = transpile_declarations(
                                        &new_selectors,
                                        at_rules,
                                        b,
                                    );
                                    let ghost innerv = inner@;
                                    let ghost out_pre = return_declarations@;
                                    return_declarations.append(&mut inner);
                                    proof {
                                        lemma_decls_model_concat(out_pre, innerv);
                                        assert(decls_model(return_declarations@) == out0
                                            + decls_model(innerv));
                                        assert(trans_at(sels, ats, am) == decls_model(innerv));
                                        assert(out0 + (trans_at(sels, ats, am) + tail) =~= (out0
                                            + decls_model(innerv)) + tail);
                                    }
                                },
                                None => {
                                    proof {
                                        assert(trans_at(sels, ats, am) =~= Seq::<DeclM>::empty());
                                        assert(out0 + (trans_at(sels, ats, am) + tail) =~= out0
                                            + tail);
                                    }
                                },
                            }
                        },
                        None => {
                            proof {
                                assert(trans_at(sels, ats, am) =~= Seq::<DeclM>::empty());
                                assert(out0 + (trans_at(sels, ats, am) + tail) =~= out0 + tail);
                            }
                        },
                    }
                } else {
                    let new_at_rules = push_at_vec(
                        at_rules,
                        &at_rule.rule_name,
                        &at_rule.rule_value,
                    );
                    match &at_rule.block {
                        Some(b) => {
                            proof {
                                assert(decreases_to!(at_rule.block => *b));
                            }
                            let mut inner = transpile_declarations(selectors, &new_at_rules, b);
                            let ghost innerv = inner@;
                            let ghost out_pre = return_declarations@;
                            return_declarations.append(&mut inner);
                            proof {
                                lemma_decls_model_concat(out_pre, innerv);
                                assert(decls_model(return_declarations@) == out0 + decls_model(
                                    innerv,
                                ));
                                assert(trans_at(sels, ats, am) == decls_model(innerv));
                                assert(out0 + (trans_at(sels, ats, am) + tail) =~= (out0
                                    + decls_model(innerv)) + tail);
                            }
                        },
                        None => {
                            proof {
                                assert(trans_at(sels, ats, am) =~= Seq::<DeclM>::empty());
                                assert(out0 + (trans_at(sels, ats, am) + tail) =~= out0 + tail);
                            }
                        },
                    }
                }
                nest_flag = true;
            },
            Declaration::QualifiedRule(rule) => {
                let ghost qm = qual_model(*rule);
                let ghost tail = trans_list(sels, ats, full.skip(i as int + 1), true);
                proof {
                    assert(decreases_to!(declarations@[i as int] => *rule));
                    assert(decreases_to!(*rule => rule.block));
                }
                let parent = parent_expr_str(selectors);
                let new_selectors = subst_sels_str(&rule.selectors, parent.as_str());
                let mut inner = transpile_declarations(&new_selectors, at_rules, &rule.block);
                let ghost innerv = inner@;
                let ghost out_pre = return_declarations@;
                return_declarations.append(&mut inner);
                proof {
                    lemma_decls_model_concat(out_pre, innerv);
                    assert(decls_model(return_declarations@) == out0 + decls_model(innerv));
                    assert(trans_qual(sels, ats, qm) == decls_model(innerv));
                    assert(out0 + (trans_qual(sels, ats, qm) + tail) =~= (out0 + decls_model(
                        innerv,
                    )) + tail);
                }
                nest_flag = true;
            },
        }
        i = i + 1;
    }
    proof {
        assert(full.skip(full.len() as int) =~= Seq::<DeclM>::empty());
        assert(trans_list(sels, ats, full.skip(full.len() as int), nest_flag)
            =~= Seq::<DeclM>::empty());
        assert(decls_model(return_declarations@) + Seq::<DeclM>::empty() =~= decls_model(
            return_declarations@,
        ));
    }
    return_declarations
}

/// One nested qualified rule of the walk.
pub open spec fn trans_qual(
    sels: Seq<Seq<char>>,
    ats: Seq<(Seq<char>, Seq<char>)>,
    q: QualM,
) -> Seq<DeclM>
    decreases q,
{
    trans_list(subst_sels(q.sels, parent_expr(sels)), ats, q.block, false)
}

/// A rule of the flat output: a bare property cannot stand at the top
/// level.
#[derive(Debug, PartialEq, Eq)]
pub enum Rule {
    QualifiedRule(QualifiedRule),
    AtRule(AtRule),
}

/// The model of one output rule.
pub open spec fn rule_model(r: Rule) -> DeclM {
    match r {
        Rule::QualifiedRule(q) => DeclM::Qual(qual_model(q)),
        Rule::AtRule(a) => DeclM::At(at_model(a)),
    }
}

/// The models of a sequence of output rules, element by element.
pub open spec fn rules_model(rs: Seq<Rule>) -> Seq<DeclM>
    decreases rs,
{
    if rs.len() == 0 {
        Seq::<DeclM>::empty()
    } else {
        seq![rule_model(rs[0])] + rules_model(rs.drop_first())
    }
}

pub proof fn lemma_rules_model(rs: Seq<Rule>)
    ensures
        rules_model(rs).len() == rs.len(),
        forall|i: int| 0 <= i < rs.len() ==> rules_model(rs)[i] == rule_model(rs[i]),
    decreases rs.len(),
{
    if rs.len() > 0 {
        lemma_rules_model(rs.drop_first());
    }
}

/// Whether no bare property stands in the list.
pub open spec fn no_props(ds: Seq<DeclM>) -> bool {
    forall|i: int| 0 <= i < ds.len() ==> !(ds[i] is Prop)
}

/// The distinct selector groups of the qualified rules, in first-seen
/// order.
pub open spec fn qual_keys(rs: Seq<DeclM>) -> Seq<Seq<Seq<char>>>
    decreases rs.len(),
{
    if rs.len() == 0 {
        Seq::<Seq<Seq<char>>>::empty()
    } else {
        let ks = qual_keys(rs.drop_last());
        match rs.last() {
            DeclM::Qual(q) => if ks.contains(q.sels) {
                ks
            } else {
                ks.push(q.sels)
            },
            _ => ks,
        }
    }
}

/// The blocks of the qualified rules with selector group `k`, concatenated
/// in order.
pub open spec fn qual_block_for(rs: Seq<DeclM>, k: Seq<Seq<char>>) -> Seq<DeclM>
    decreases rs.len(),
{
    if rs.len() == 0 {
        Seq::<DeclM>::empty()
    } else {
        qual_block_for(rs.drop_last(), k) + (match rs.last() {
            DeclM::Qual(q) => if q.sels == k {
                q.block
            } else {
                Seq::<DeclM>::empty()
            },
            _ => Seq::<DeclM>::empty(),
        })
    }
}

/// The distinct name-value keys of the at-rules, in first-seen order.
pub open spec fn at_keys(rs: Seq<DeclM>) -> Seq<(Seq<char>, Seq<char>)>
    decreases rs.len(),
{
    if rs.len() == 0 {
        Seq::<(Seq<char>, Seq<char>)>::empty()
    } else {
        let ks = at_keys(rs.drop_last());
        match rs.last() {
            DeclM::At(a) => if ks.contains((a.name, a.value)) {
                ks
            } else {
                ks.push((a.name, a.value))
            },
            _ => ks,
        }
    }
}

/// The statement-form at-rules with key `k`, in order.
pub open spec fn at_stmts_for(rs: Seq<DeclM>, k: (Seq<char>, Seq<char>)) -> Seq<DeclM>
    decreases rs.len(),
{
    if rs.len() == 0 {
        Seq::<DeclM>::empty()
    } else {
        at_stmts_for(rs.drop_last(), k) + (match rs.last() {
            DeclM::At(a) => if (a.name, a.value) == k && a.block is None {
                seq![rs.last()]
            } else {
                Seq::<DeclM>::empty()
            },
            _ => Seq::<DeclM>::empty(),
        })
    }
}

/// The blocks of the block-form at-rules with key `k`, concatenated in
/// order.
pub open spec fn at_block_for(rs: Seq<DeclM>, k: (Seq<char>, Seq<char>)) -> Seq<DeclM>
    decreases rs.len(),
{
    if rs.len() == 0 {
        Seq::<DeclM>::empty()
    } else {
        at_block_for(rs.drop_last(), k) + (match rs.last() {
            DeclM::At(a) => match a.block {
                Option::Some(b) => if (a.name, a.value) == k {
                    b
                } else {
                    Seq::<DeclM>::empty()
                },
                Option::None => Seq::<DeclM>::empty(),
            },
            _ => Seq::<DeclM>::empty(),
        })
    }
}

/// The merged qualified rules, one per key, in key order.
pub open spec fn quals_of(rs: Seq<DeclM>, ks: Seq<Seq<Seq<char>>>) -> Seq<DeclM>
    decreases ks.len(),
{
    if ks.len() == 0 {
        Seq::<DeclM>::empty()
    } else {
        seq![DeclM::Qual(QualM { sels: ks[0], block: qual_block_for(rs, ks[0]) })] + quals_of(
            rs,
            ks.drop_first(),
        )
    }
}

/// The merged block-form rule of one at-rule key, when any block-form rule
/// contributed content.
pub open spec fn at_merged_opt(rs: Seq<DeclM>, k: (Seq<char>, Seq<char>)) -> Seq<DeclM> {
    if at_block_for(rs, k).len() > 0 {
        seq![
            DeclM::At(
                AtM { name: k.0, value: k.1, block: Option::Some(at_block_for(rs, k)) },
            ),
        ]
    } else {
        Seq::<DeclM>::empty()
    }
}

/// The output of one at-rule key: its statement-form rules, then — when any
/// block-form rule contributed — one merged block-form rule.
pub open spec fn at_group(rs: Seq<DeclM>, k: (Seq<char>, Seq<char>)) -> Seq<DeclM> {
    at_stmts_for(rs, k) + at_merged_opt(rs, k)
}

/// The merged at-rules, grouped per key, in key order.
pub open spec fn ats_of(rs: Seq<DeclM>, ks: Seq<(Seq<char>, Seq<char>)>) -> Seq<DeclM>
    decreases ks.len(),
{
    if ks.len() == 0 {
        Seq::<DeclM>::empty()
    } else {
        at_group(rs, ks[0]) + ats_of(rs, ks.drop_first())
    }
}

/// The merge pass: the qualified rules merged by selector-group equality,
/// in first-seen key order, then the at-rules merged by name-value key.
pub open spec fn merge_model(rs: Seq<DeclM>) -> Seq<DeclM> {
    quals_of(rs, qual_keys(rs)) + ats_of(rs, at_keys(rs))
}

/// One declaration rendered as compact CSS text.
pub open spec fn decl_str(d: DeclM) -> Seq<char>
    decreases d,
    via decl_str_dec
{
    match d {
        DeclM::Prop(p) => p.name + seq![':'] + p.value + seq![';'],
        DeclM::At(a) => match a.block {
            Option::Some(b) => seq!['@'] + a.name + seq![' '] + a.value + seq!['{'] + decls_str(b)
                + seq!['}'],
            Option::None => seq!['@'] + a.name + seq![' '] + a.value + seq![';'],
        },
        DeclM::Qual(q) => join_with(q.sels, seq![',']) + seq!['{'] + decls_str(q.block)
            + seq!['}'],
    }
}

#[via_fn]
proof fn decl_str_dec(d: DeclM) {
    match d {
        DeclM::At(a) => {
            match a.block {
                Option::Some(b) => {
                    assert(decreases_to!(d => a));
                    assert(decreases_to!(a => a.block));
                    assert(decreases_to!(a.block => b));
                },
                Option::None => {},
            }
        },
        _ => {},
    }
}

/// A list of declarations rendered as compact CSS text, in order.
pub open spec fn decls_str(ds: Seq<DeclM>) -> Seq<char>
    decreases ds,
{
    if ds.len() == 0 {
        Seq::<char>::empty()
    } else {
        decls_str(ds.drop_last()) + decl_str(ds.last())
    }
}

/// The models of a sequence of statement-form at-rules.
pub open spec fn at_rules_model(v: Seq<AtRule>) -> Seq<DeclM>
    decreases v,
{
    if v.len() == 0 {
        Seq::<DeclM>::empty()
    } else {
        seq![DeclM::At(at_model(v[0]))] + at_rules_model(v.drop_first())
    }
}

proof fn lemma_at_rules_model_push(v: Seq<AtRule>, a: AtRule)
    ensures
        at_rules_model(v.push(a)) == at_rules_model(v).push(DeclM::At(at_model(a))),
    decreases v.len(),
{
    if v.len() == 0 {
        assert(v.push(a)[0] == a);
        assert(v.push(a).drop_first() =~= Seq::<AtRule>::empty());
        assert(at_rules_model(v.push(a).drop_first()) =~= Seq::<DeclM>::empty());
        assert(at_rules_model(v) =~= Seq::<DeclM>::empty());
        assert(at_rules_model(v.push(a)) =~= at_rules_model(v).push(DeclM::At(at_model(a))));
    } else {
        assert(v.push(a).drop_first() =~= v.drop_first().push(a));
        lemma_at_rules_model_push(v.drop_first(), a);
        assert(at_rules_model(v.push(a)) =~= at_rules_model(v).push(DeclM::At(at_model(a))));
    }
}

/// How one more processed rule changes the merge bookkeeping.
proof fn lemma_merge_step(rs: Seq<DeclM>, m: DeclM)
    ensures
        qual_keys(rs.push(m)) == (match m {
            DeclM::Qual(q) => if qual_keys(rs).contains(q.sels) {
                qual_keys(rs)
            } else {
                qual_keys(rs).push(q.sels)
            },
            _ => qual_keys(rs),
        }),
        at_keys(rs.push(m)) == (match m {
            DeclM::At(a) => if at_keys(rs).contains((a.name, a.value)) {
                at_keys(rs)
            } else {
                at_keys(rs).push((a.name, a.value))
            },
            _ => at_keys(rs),
        }),
        forall|k: Seq<Seq<char>>| #[trigger] qual_block_for(rs.push(m), k) == qual_block_for(
            rs,
            k,
        ) + (match m {
            DeclM::Qual(q) => if q.sels == k {
                q.block
            } else {
                Seq::<DeclM>::empty()
            },
            _ => Seq::<DeclM>::empty(),
        }),
        forall|k: (Seq<char>, Seq<char>)| #[trigger] at_stmts_for(rs.push(m), k) == at_stmts_for(
            rs,
            k,
        ) + (match m {
            DeclM::At(a) => if (a.name, a.value) == k && a.block is None {
                seq![m]
            } else {
                Seq::<DeclM>::empty()
            },
            _ => Seq::<DeclM>::empty(),
        }),
        forall|k: (Seq<char>, Seq<char>)| #[trigger] at_block_for(rs.push(m), k) == at_block_for(
            rs,
            k,
        ) + (match m {
            DeclM::At(a) => match a.block {
                Option::Some(b) => if (a.name, a.value) == k {
                    b
                } else {
                    Seq::<DeclM>::empty()
                },
                Option::None => Seq::<DeclM>::empty(),
            },
            _ => Seq::<DeclM>::empty(),
        }),
{
    assert(rs.push(m).drop_last() =~= rs);
    assert(rs.push(m).last() == m);
    assert(rs.push(m).len() == rs.len() + 1);
}

/// A selector group absent from the keys contributes no block.
proof fn lemma_qual_block_absent(rs: Seq<DeclM>, k: Seq<Seq<char>>)
    requires
        !qual_keys(rs).contains(k),
    ensures
        qual_block_for(rs, k) == Seq::<DeclM>::empty(),
    decreases rs.len(),
{
    if rs.len() > 0 {
        let ks = qual_keys(rs.drop_last());
        assert(!ks.contains(k)) by {
            if ks.contains(k) {
                let x = choose|x: int| 0 <= x < ks.len() && ks[x] == k;
                match rs.last() {
                    DeclM::Qual(q) => {
                        if ks.contains(q.sels) {
                            assert(qual_keys(rs)[x] == k);
                        } else {
                            assert(qual_keys(rs)[x] == k);
                        }
                    },
                    _ => {
                        assert(qual_keys(rs)[x] == k);
                    },
                }
            }
        }
        lemma_qual_block_absent(rs.drop_last(), k);
        match rs.last() {
            DeclM::Qual(q) => {
                if q.sels == k {
                    if ks.contains(q.sels) {
                    } else {
                        assert(qual_keys(rs)[ks.len() as int] == q.sels);
                    }
                    assert(false);
                }
            },
            _ => {},
        }
        assert(qual_block_for(rs, k) =~= Seq::<DeclM>::empty());
    }
}

/// An at-rule key absent from the keys contributes neither statements nor
/// block content.
proof fn lemma_at_absent(rs: Seq<DeclM>, k: (Seq<char>, Seq<char>))
    requires
        !at_keys(rs).contains(k),
    ensures
        at_stmts_for(rs, k) == Seq::<DeclM>::empty(),
        at_block_for(rs, k) == Seq::<DeclM>::empty(),
    decreases rs.len(),
{
    if rs.len() > 0 {
        let ks = at_keys(rs.drop_last());
        assert(!ks.contains(k)) by {
            if ks.contains(k) {
                let x = choose|x: int| 0 <= x < ks.len() && ks[x] == k;
                match rs.last() {
                    DeclM::At(a) => {
                        if ks.contains((a.name, a.value)) {
                            assert(at_keys(rs)[x] == k);
                        } else {
                            assert(at_keys(rs)[x] == k);
                        }
                    },
                    _ => {
                        assert(at_keys(rs)[x] == k);
                    },
                }
            }
        }
        lemma_at_absent(rs.drop_last(), k);
        match rs.last() {
            DeclM::At(a) => {
                if (a.name, a.value) == k {
                    if ks.contains((a.name, a.value)) {
                    } else {
                        assert(at_keys(rs)[ks.len() as int] == (a.name, a.value));
                    }
                    assert(false);
                }
            },
            _ => {},
        }
        assert(at_stmts_for(rs, k) =~= Seq::<DeclM>::empty());
        assert(at_block_for(rs, k) =~= Seq::<DeclM>::empty());
    }
}

/// Whether the two selector groups hold the same selectors.
fn selectors_eq(a: &Selectors, b: &Selectors) -> (r: bool)
    ensures
        r == (a.model() == b.model()),
{
    let n = a.0.len();
    if n != b.0.len() {
        proof {
            assert(a.model().len() == a.0@.len());
            assert(b.model().len() == b.0@.len());
        }
        return false;
    }
    let mut i: usize = 0;
    while i < n
        invariant
            i <= n,
            n == a.0@.len(),
            n == b.0@.len(),
            forall|j: int| 0 <= j < i ==> a.0@[j]@ == b.0@[j]@,
        decreases n - i,
    {
        if !str_eq(a.0[i].as_str(), b.0[i].as_str()) {
            proof {
                assert(a.model()[i as int] == a.0@[i as int]@);
                assert(b.model()[i as int] == b.0@[i as int]@);
            }
            return false;
        }
        i = i + 1;
    }
    proof {
        assert(a.model() =~= b.model());
    }
    true
}

/// The first entry of the map whose selector group equals `key`.
fn find_qual(qual_map: &Vec<(Selectors, Vec<Declaration>)>, key: &Selectors) -> (r: Option<
    usize,
>)
    ensures
        match r {
            Some(x) => x < qual_map@.len() && qual_map@[x as int].0.model() == key.model(),
            None => forall|j: int|
                0 <= j < qual_map@.len() ==> qual_map@[j].0.model() != key.model(),
        },
{
    let mut i: usize = 0;
    while i < qual_map.len()
        invariant
            i <= qual_map@.len(),
            forall|j: int| 0 <= j < i ==> qual_map@[j].0.model() != key.model(),
        decreases qual_map@.len() - i,
    {
        if selectors_eq(&qual_map[i].0, key) {
            return Some(i);
        }
        i = i + 1;
    }
    None
}

/// The first entry of the map whose name-value key matches.
fn find_at(
    at_map: &Vec<(String, String, Vec<AtRule>, Vec<Declaration>)>,
    name: &String,
    value: &String,
) -> (r: Option<usize>)
    ensures
        match r {
            Some(x) => x < at_map@.len() && at_map@[x as int].0@ == name@ && at_map@[x as int].1@
                == value@,
            None => forall|j: int|
                0 <= j < at_map@.len() ==> (at_map@[j].0@, at_map@[j].1@) != (name@, value@),
        },
{
    let mut i: usize = 0;
    while i < at_map.len()
        invariant
            i <= at_map@.len(),
            forall|j: int| 0 <= j < i ==> (at_map@[j].0@, at_map@[j].1@) != (name@, value@),
        decreases at_map@.len() - i,
    {
        if str_eq(at_map[i].0.as_str(), name.as_str()) && str_eq(
            at_map[i].1.as_str(),
            value.as_str(),
        ) {
            return Some(i);
        }
        i = i + 1;
    }
    None
}

/// Converts the flat declarations into output rules; a bare property cannot
/// occur here, as [`lemma_trans_list_no_props`] shows of the walk's output.
fn into_rules(declarations: Vec<Declaration>) -> (r: Vec<Rule>)
    requires
        no_props(decls_model(declarations@)),
    ensures
        rules_model(r@) == decls_model(declarations@),
{
    let ghost full = decls_model(declarations@);
    let mut declarations = declarations;
    let mut rules: Vec<Rule> = Vec::new();
    proof {
        assert(rules_model(rules@) =~= Seq::<DeclM>::empty());
        assert(rules_model(rules@) + decls_model(declarations@) =~= full);
    }
    while declarations.len() > 0
        invariant
            no_props(full),
            full == rules_model(rules@) + decls_model(declarations@),
        decreases declarations@.len(),
    {
        let ghost pre = declarations@;
        let ghost out0 = rules_model(rules@);
        let d = declarations.remove(0);
        proof {
            assert(declarations@ =~= pre.drop_first());
            assert(pre[0] == d);
            assert(decls_model(pre) == seq![decl_model(d)] + decls_model(pre.drop_first()));
            lemma_decls_model(pre);
            assert(decl_model(d) == full[out0.len() as int]) by {
                lemma_rules_model(rules@);
            }
        }
        match d {
            Declaration::AtRule(at_rule) => {
                let ghost m = decl_model(Declaration::AtRule(at_rule));
                let ghost rules0 = rules@;
                rules.push(Rule::AtRule(at_rule));
                proof {
                    lemma_rules_model_push(rules0, rules@.last());
                    assert(rules@ =~= rules0.push(rules@.last()));
                    assert(out0.push(m) + decls_model(declarations@) =~= out0 + (seq![m]
                        + decls_model(pre.drop_first())));
                }
            },
            Declaration::QualifiedRule(rule) => {
                let ghost m = decl_model(Declaration::QualifiedRule(rule));
                let ghost rules0 = rules@;
                rules.push(Rule::QualifiedRule(rule));
                proof {
                    lemma_rules_model_push(rules0, rules@.last());
                    assert(rules@ =~= rules0.push(rules@.last()));
                    assert(out0.push(m) + decls_model(declarations@) =~= out0 + (seq![m]
                        + decls_model(pre.drop_first())));
                }
            },
            Declaration::Property(p) => {
                proof {
                    assert(false);
                }
                let _ = p;
            },
        }
    }
    proof {
        assert(decls_model(declarations@) =~= Seq::<DeclM>::empty());
        assert(rules_model(rules@) + Seq::<DeclM>::empty() =~= rules_model(rules@));
    }
    rules
}

pub proof fn lemma_rules_model_push(rs: Seq<Rule>, r: Rule)
    ensures
        rules_model(rs.push(r)) == rules_model(rs).push(rule_model(r)),
    decreases rs.len(),
{
    if rs.len() == 0 {
        assert(rs.push(r)[0] == r);
        assert(rs.push(r).drop_first() =~= Seq::<Rule>::empty());
        assert(rules_model(rs.push(r).drop_first()) =~= Seq::<DeclM>::empty());
        assert(rules_model(rs) =~= Seq::<DeclM>::empty());
        assert(rules_model(rs.push(r)) =~= rules_model(rs).push(rule_model(r)));
    } else {
        assert(rs.push(r).drop_first() =~= rs.drop_first().push(r));
        lemma_rules_model_push(rs.drop_first(), r);
        assert(rules_model(rs.push(r)) =~= rules_model(rs).push(rule_model(r)));
    }
}

/// The merge pass, as [`merge_model`] describes: qualified rules sharing a
/// selector group and at-rules sharing a name-value key are combined, their
/// blocks concatenated in encounter order, keys kept in first-seen order.
fn merge_same_selectors(rules: Vec<Rule>) -> (r: TranspiledCss)
    ensures
        r.model() == merge_model(rules_model(rules@)),
{
    let ghost rsm = rules_model(rules@);
    let mut rules = rules;
    let mut qual_map: Vec<(Selectors, Vec<Declaration>)> = Vec::new();
    let mut at_map: Vec<(String, String, Vec<AtRule>, Vec<Declaration>)> = Vec::new();
    let ghost mut done: Seq<DeclM> = Seq::<DeclM>::empty();
    proof {
        assert(done + rules_model(rules@) =~= rsm);
        assert(qual_keys(done) =~= Seq::<Seq<Seq<char>>>::empty());
        assert(at_keys(done) =~= Seq::<(Seq<char>, Seq<char>)>::empty());
    }
    while rules.len() > 0
        invariant
            rsm == done + rules_model(rules@),
            qual_map@.len() == qual_keys(done).len(),
            forall|x: int|
                0 <= x < qual_map@.len() ==> (#[trigger] qual_map@[x]).0.model() == qual_keys(
                    done,
                )[x],
            forall|x: int|
                0 <= x < qual_map@.len() ==> decls_model((#[trigger] qual_map@[x]).1@)
                    == qual_block_for(done, qual_keys(done)[x]),
            forall|x: int, y: int|
                0 <= x < y < qual_map@.len() ==> qual_keys(done)[x] != qual_keys(done)[y],
            at_map@.len() == at_keys(done).len(),
            forall|x: int|
                0 <= x < at_map@.len() ==> ((#[trigger] at_map@[x]).0@, at_map@[x].1@) == at_keys(
                    done,
                )[x],
            forall|x: int|
                0 <= x < at_map@.len() ==> at_rules_model((#[trigger] at_map@[x]).2@)
                    == at_stmts_for(done, at_keys(done)[x]),
            forall|x: int|
                0 <= x < at_map@.len() ==> decls_model((#[trigger] at_map@[x]).3@)
                    == at_block_for(done, at_keys(done)[x]),
            forall|x: int, y: int|
                0 <= x < y < at_map@.len() ==> at_keys(done)[x] != at_keys(done)[y],
        decreases rules@.len(),
    {
        let ghost pre = rules@;
        let ghost done0 = done;
        let rule = rules.remove(0);
        let ghost m = rule_model(rule);
        proof {
            assert(rules@ =~= pre.drop_first());
            assert(pre[0] == rule);
            assert(rules_model(pre) == seq![m] + rules_model(pre.drop_first()));
            done = done.push(m);
            assert(done0 + (seq![m] + rules_model(rules@)) =~= done + rules_model(rules@));
            lemma_merge_step(done0, m);
        }
        match rule {
            Rule::QualifiedRule(qrule) => {
                let ghost qm = qual_model(qrule);
                match find_qual(&qual_map, &qrule.selectors) {
                    Some(x) => {
                        proof {
                            assert(qual_keys(done0)[x as int] == qm.sels);
                            assert(qual_keys(done0).contains(qm.sels));
                            assert(qual_keys(done) == qual_keys(done0));
                            assert(at_keys(done) == at_keys(done0));
                        }
                        let ghost map0 = qual_map@;
                        let mut entry = qual_map.remove(x);
                        let ghost eb0 = entry.1@;
                        let mut qblock = qrule.block;
                        let ghost qbv = qblock@;
                        entry.1.append(&mut qblock);
                        proof {
                            lemma_decls_model_concat(eb0, qbv);
                        }
                        qual_map.insert(x, entry);
                        proof {
                            assert(qual_map@ =~= map0.update(x as int, qual_map@[x as int]));
                            assert forall|y: int|
                                0 <= y < qual_map@.len() implies decls_model(
                                (#[trigger] qual_map@[y]).1@,
                            ) == qual_block_for(done, qual_keys(done)[y]) by {
                                if y == x {
                                } else {
                                    assert(qual_keys(done0)[y] != qm.sels);
                                    assert(qual_block_for(done0, qual_keys(done0)[y])
                                        + Seq::<DeclM>::empty() =~= qual_block_for(
                                        done0,
                                        qual_keys(done0)[y],
                                    ));
                                }
                            }
                            assert forall|y: int|
                                0 <= y < at_map@.len() implies at_rules_model(
                                (#[trigger] at_map@[y]).2@,
                            ) == at_stmts_for(done, at_keys(done)[y]) && decls_model(
                                at_map@[y].3@,
                            ) == at_block_for(done, at_keys(done)[y]) by {
                                assert(at_stmts_for(done0, at_keys(done0)[y])
                                    + Seq::<DeclM>::empty() =~= at_stmts_for(
                                    done0,
                                    at_keys(done0)[y],
                                ));
                                assert(at_block_for(done0, at_keys(done0)[y])
                                    + Seq::<DeclM>::empty() =~= at_block_for(
                                    done0,
                                    at_keys(done0)[y],
                                ));
                            }
                        }
                    },
                    None => {
                        proof {
                            assert(!qual_keys(done0).contains(qm.sels)) by {
                                if qual_keys(done0).contains(qm.sels) {
                                    let x = choose|x: int|
                                        0 <= x < qual_keys(done0).len() && qual_keys(done0)[x]
                                            == qm.sels;
                                    assert(qual_map@[x].0.model() == qm.sels);
                                }
                            }
                            lemma_qual_block_absent(done0, qm.sels);
                            assert(qual_keys(done) == qual_keys(done0).push(qm.sels));
                            assert(at_keys(done) == at_keys(done0));
                        }
                        let ghost qbv = qrule.block@;
                        qual_map.push((qrule.selectors, qrule.block));
                        proof {
                            assert(Seq::<DeclM>::empty() + qm.block =~= qm.block);
                            assert forall|y: int|
                                0 <= y < qual_map@.len() implies (#[trigger] qual_map@[y]).0.model()
                                == qual_keys(done)[y] && decls_model(qual_map@[y].1@)
                                == qual_block_for(done, qual_keys(done)[y]) by {
                                if y < qual_map@.len() - 1 {
                                    assert(qual_keys(done0)[y] != qm.sels);
                                    assert(qual_block_for(done0, qual_keys(done0)[y])
                                        + Seq::<DeclM>::empty() =~= qual_block_for(
                                        done0,
                                        qual_keys(done0)[y],
                                    ));
                                }
                            }
                            assert forall|y: int|
                                0 <= y < at_map@.len() implies at_rules_model(
                                (#[trigger] at_map@[y]).2@,
                            ) == at_stmts_for(done, at_keys(done)[y]) && decls_model(
                                at_map@[y].3@,
                            ) == at_block_for(done, at_keys(done)[y]) by {
                                assert(at_stmts_for(done0, at_keys(done0)[y])
                                    + Seq::<DeclM>::empty() =~= at_stmts_for(
                                    done0,
                                    at_keys(done0)[y],
                                ));
                                assert(at_block_for(done0, at_keys(done0)[y])
                                    + Seq::<DeclM>::empty() =~= at_block_for(
                                    done0,
                                    at_keys(done0)[y],
                                ));
                            }
                        }
                    },
                }
            },
            Rule::AtRule(at_rule) => {
                let ghost am = at_model(at_rule);
                let ghost k = (am.name, am.value);
                match find_at(&at_map, &at_rule.rule_name, &at_rule.rule_value) {
                    Some(x) => {
                        proof {
                            assert(at_keys(done0)[x as int] == k);
                            assert(at_keys(done0).contains(k));
                            assert(at_keys(done) == at_keys(done0));
                            assert(qual_keys(done) == qual_keys(done0));
                        }
                        let ghost map0 = at_map@;
                        let mut entry = at_map.remove(x);
                        match at_rule.block {
                            Some(mut b) => {
                                let ghost eb0 = entry.3@;
                                let ghost bv = b@;
                                entry.3.append(&mut b);
                                proof {
                                    lemma_decls_model_concat(eb0, bv);
                                    assert(at_rules_model(entry.2@) + Seq::<DeclM>::empty()
                                        =~= at_rules_model(entry.2@));
                                }
                            },
                            None => {
                                let ghost st0 = entry.2@;
                                entry.2.push(
                                    AtRule {
                                        rule_name: at_rule.rule_name,
                                        rule_value: at_rule.rule_value,
                                        block: None,
                                    },
                                );
                                proof {
                                    lemma_at_rules_model_push(st0, entry.2@.last());
                                    assert(entry.2@ =~= st0.push(entry.2@.last()));
                                    assert(DeclM::At(at_model(entry.2@.last())) == m);
                                    assert(at_rules_model(st0).push(m) =~= at_rules_model(st0)
                                        + seq![m]);
                                    assert(decls_model(entry.3@) + Seq::<DeclM>::empty()
                                        =~= decls_model(entry.3@));
                                }
                            },
                        }
                        at_map.insert(x, entry);
                        proof {
                            assert(at_map@ =~= map0.update(x as int, at_map@[x as int]));
                            assert forall|y: int|
                                0 <= y < at_map@.len() implies at_rules_model(
                                (#[trigger] at_map@[y]).2@,
                            ) == at_stmts_for(done, at_keys(done)[y]) && decls_model(
                                at_map@[y].3@,
                            ) == at_block_for(done, at_keys(done)[y]) by {
                                if y == x {
                                } else {
                                    assert(at_keys(done0)[y] != k);
                                    assert(at_stmts_for(done0, at_keys(done0)[y])
                                        + Seq::<DeclM>::empty() =~= at_stmts_for(
                                        done0,
                                        at_keys(done0)[y],
                                    ));
                                    assert(at_block_for(done0, at_keys(done0)[y])
                                        + Seq::<DeclM>::empty() =~= at_block_for(
                                        done0,
                                        at_keys(done0)[y],
                                    ));
                                }
                            }
                            assert forall|y: int|
                                0 <= y < qual_map@.len() implies decls_model(
                                (#[trigger] qual_map@[y]).1@,
                            ) == qual_block_for(done, qual_keys(done)[y]) by {
                                assert(qual_block_for(done0, qual_keys(done0)[y])
                                    + Seq::<DeclM>::empty() =~= qual_block_for(
                                    done0,
                                    qual_keys(done0)[y],
                                ));
                            }
                        }
                    },
                    None => {
                        proof {
                            assert(!at_keys(done0).contains(k)) by {
                                if at_keys(done0).contains(k) {
                                    let x = choose|x: int|
                                        0 <= x < at_keys(done0).len() && at_keys(done0)[x] == k;
                                    assert((at_map@[x].0@, at_map@[x].1@) == k);
                                }
                            }
                            lemma_at_absent(done0, k);
                            assert(at_keys(done) == at_keys(done0).push(k));
                            assert(qual_keys(done) == qual_keys(done0));
                        }
                        match at_rule.block {
                            Some(b) => {
                                let ghost bv = b@;
                                at_map.push(
                                    (at_rule.rule_name, at_rule.rule_value, Vec::new(), b),
                                );
                                proof {
                                    assert(at_rules_model(at_map@.last().2@)
                                        =~= Seq::<DeclM>::empty());
                                    assert(at_stmts_for(done, k) =~= Seq::<DeclM>::empty());
                                    assert(Seq::<DeclM>::empty() + decls_model(bv)
                                        =~= decls_model(bv));
                                }
                            },
                            None => {
                                let kn = at_rule.rule_name.clone();
                                let kv = at_rule.rule_value.clone();
                                let mut stmts: Vec<AtRule> = Vec::new();
                                stmts.push(
                                    AtRule {
                                        rule_name: at_rule.rule_name,
                                        rule_value: at_rule.rule_value,
                                        block: None,
                                    },
                                );
                                proof {
                                    assert(stmts@.drop_first() =~= Seq::<AtRule>::empty());
                                    assert(at_rules_model(stmts@.drop_first())
                                        =~= Seq::<DeclM>::empty());
                                    assert(at_rules_model(stmts@) =~= seq![m]);
                                }
                                at_map.push((kn, kv, stmts, Vec::new()));
                                proof {
                                    assert(Seq::<DeclM>::empty() + seq![m] =~= seq![m]);
                                    assert(decls_model(at_map@.last().3@)
                                        =~= Seq::<DeclM>::empty());
                                    assert(at_block_for(done, k) + Seq::<DeclM>::empty()
                                        =~= at_block_for(done, k));
                                }
                            },
                        }
                        proof {
                            assert forall|y: int|
                                0 <= y < at_map@.len() implies ((#[trigger] at_map@[y]).0@,
                            at_map@[y].1@) == at_keys(done)[y] && at_rules_model(at_map@[y].2@)
                                == at_stmts_for(done, at_keys(done)[y]) && decls_model(
                                at_map@[y].3@,
                            ) == at_block_for(done, at_keys(done)[y]) by {
                                if y < at_map@.len() - 1 {
                                    assert(at_keys(done0)[y] != k);
                                    assert(at_stmts_for(done0, at_keys(done0)[y])
                                        + Seq::<DeclM>::empty() =~= at_stmts_for(
                                        done0,
                                        at_keys(done0)[y],
                                    ));
                                    assert(at_block_for(done0, at_keys(done0)[y])
                                        + Seq::<DeclM>::empty() =~= at_block_for(
                                        done0,
                                        at_keys(done0)[y],
                                    ));
                                }
                            }
                            assert forall|y: int|
                                0 <= y < qual_map@.len() implies decls_model(
                                (#[trigger] qual_map@[y]).1@,
                            ) == qual_block_for(done, qual_keys(done)[y]) by {
                                assert(qual_block_for(done0, qual_keys(done0)[y])
                                    + Seq::<DeclM>::empty() =~= qual_block_for(
                                    done0,
                                    qual_keys(done0)[y],
                                ));
                            }
                        }
                    },
                }
            },
        }
    }
    proof {
        assert(rules_model(rules@) =~= Seq::<DeclM>::empty());
        assert(done + Seq::<DeclM>::empty() =~= done);
    }
    let ghost qks = qual_keys(rsm);
    let ghost aks = at_keys(rsm);
    let mut merged_rules: Vec<Rule> = Vec::new();
    proof {
        assert(qks.skip(0) =~= qks);
        assert(rules_model(merged_rules@) =~= Seq::<DeclM>::empty());
        assert(rules_model(merged_rules@) + quals_of(rsm, qks) =~= quals_of(rsm, qks));
    }
    while qual_map.len() > 0
        invariant
            qks == qual_keys(rsm),
            aks == at_keys(rsm),
            qual_map@.len() <= qks.len(),
            forall|x: int|
                0 <= x < qual_map@.len() ==> (#[trigger] qual_map@[x]).0.model() == qks[qks.len()
                    - qual_map@.len() + x],
            forall|x: int|
                0 <= x < qual_map@.len() ==> decls_model((#[trigger] qual_map@[x]).1@)
                    == qual_block_for(rsm, qks[qks.len() - qual_map@.len() + x]),
            quals_of(rsm, qks) == rules_model(merged_rules@) + quals_of(
                rsm,
                qks.skip(qks.len() - qual_map@.len()),
            ),
            at_map@.len() == aks.len(),
            forall|x: int|
                0 <= x < at_map@.len() ==> ((#[trigger] at_map@[x]).0@, at_map@[x].1@) == aks[x],
            forall|x: int|
                0 <= x < at_map@.len() ==> at_rules_model((#[trigger] at_map@[x]).2@)
                    == at_stmts_for(rsm, aks[x]),
            forall|x: int|
                0 <= x < at_map@.len() ==> decls_model((#[trigger] at_map@[x]).3@)
                    == at_block_for(rsm, aks[x]),
        decreases qual_map@.len(),
    {
        let ghost j = qks.len() - qual_map@.len();
        let ghost map0 = qual_map@;
        let entry = qual_map.remove(0);
        proof {
            assert(qual_map@ =~= map0.drop_first());
        }
        let ghost em = DeclM::Qual(QualM { sels: entry.0.model(), block: decls_model(entry.1@) });
        let ghost out0 = rules_model(merged_rules@);
        let ghost mv0 = merged_rules@;
        proof {
            assert(entry == map0[0]);
            assert(em == DeclM::Qual(QualM { sels: qks[j], block: qual_block_for(rsm, qks[j]) }));
        }
        merged_rules.push(
            Rule::QualifiedRule(QualifiedRule { selectors: entry.0, block: entry.1 }),
        );
        proof {
            lemma_rules_model_push(mv0, merged_rules@.last());
            assert(merged_rules@ =~= mv0.push(merged_rules@.last()));
            assert(rule_model(merged_rules@.last()) == em);
            assert(qks.skip(j)[0] == qks[j]);
            assert(qks.skip(j).drop_first() =~= qks.skip(j + 1));
            assert(quals_of(rsm, qks.skip(j)) == seq![em] + quals_of(rsm, qks.skip(j + 1)));
            assert(out0.push(em) + quals_of(rsm, qks.skip(j + 1)) =~= out0 + (seq![em]
                + quals_of(rsm, qks.skip(j + 1))));
        }
    }
    proof {
        assert(qks.skip(qks.len() as int) =~= Seq::<Seq<Seq<char>>>::empty());
        assert(quals_of(rsm, qks.skip(qks.len() as int)) =~= Seq::<DeclM>::empty());
        assert(rules_model(merged_rules@) + Seq::<DeclM>::empty() =~= rules_model(merged_rules@));
        assert(aks.skip(0) =~= aks);
        assert(merge_model(rsm) == rules_model(merged_rules@) + ats_of(rsm, aks.skip(0)));
    }
    while at_map.len() > 0
        invariant
            aks == at_keys(rsm),
            at_map@.len() <= aks.len(),
            forall|x: int|
                0 <= x < at_map@.len() ==> ((#[trigger] at_map@[x]).0@, at_map@[x].1@)
                    == aks[aks.len() - at_map@.len() + x],
            forall|x: int|
                0 <= x < at_map@.len() ==> at_rules_model((#[trigger] at_map@[x]).2@)
                    == at_stmts_for(rsm, aks[aks.len() - at_map@.len() + x]),
            forall|x: int|
                0 <= x < at_map@.len() ==> decls_model((#[trigger] at_map@[x]).3@)
                    == at_block_for(rsm, aks[aks.len() - at_map@.len() + x]),
            merge_model(rsm) == rules_model(merged_rules@) + ats_of(
                rsm,
                aks.skip(aks.len() - at_map@.len()),
            ),
        decreases at_map@.len(),
    {
        let ghost j = aks.len() - at_map@.len();
        let ghost map0 = at_map@;
        let entry = at_map.remove(0);
        proof {
            assert(at_map@ =~= map0.drop_first());
            assert(aks.skip(j)[0] == aks[j]);
            assert(aks.skip(j).drop_first() =~= aks.skip(j + 1));
        }
        let ghost k = aks[j];
        proof {
            assert(entry == map0[0]);
        }
        let (kname, kvalue, stmts, block) = entry;
        let mut stmts = stmts;
        let ghost bv = block@;
        proof {
            assert(kname@ == k.0 && kvalue@ == k.1);
            assert(at_rules_model(stmts@) == at_stmts_for(rsm, k));
            assert(decls_model(bv) == at_block_for(rsm, k));
            assert(ats_of(rsm, aks.skip(j)) == at_group(rsm, k) + ats_of(rsm, aks.skip(j + 1)));
            assert((at_stmts_for(rsm, k) + at_merged_opt(rsm, k)) + ats_of(rsm, aks.skip(j + 1))
                =~= at_stmts_for(rsm, k) + (at_merged_opt(rsm, k) + ats_of(rsm, aks.skip(j + 1))));
        }
        while stmts.len() > 0
            invariant
                decls_model(bv) == at_block_for(rsm, k),
                merge_model(rsm) == rules_model(merged_rules@) + (at_rules_model(stmts@) + (
                at_merged_opt(rsm, k) + ats_of(rsm, aks.skip(j + 1)))),
            decreases stmts@.len(),
        {
            let ghost sp = stmts@;
            let s = stmts.remove(0);
            let ghost out0 = rules_model(merged_rules@);
            let ghost mv0 = merged_rules@;
            let ghost sm = DeclM::At(at_model(s));
            proof {
                assert(sp[0] == s);
            }
            merged_rules.push(Rule::AtRule(s));
            proof {
                assert(stmts@ =~= sp.drop_first());
                assert(at_rules_model(sp) == seq![sm] + at_rules_model(sp.drop_first()));
                lemma_rules_model_push(mv0, merged_rules@.last());
                assert(merged_rules@ =~= mv0.push(merged_rules@.last()));
                assert(rule_model(merged_rules@.last()) == sm);
                assert(out0 + (at_rules_model(sp) + (at_merged_opt(rsm, k) + ats_of(
                    rsm,
                    aks.skip(j + 1),
                ))) =~= out0.push(sm) + (at_rules_model(stmts@) + (at_merged_opt(rsm, k)
                    + ats_of(rsm, aks.skip(j + 1)))));
            }
        }
        proof {
            assert(at_rules_model(stmts@) =~= Seq::<DeclM>::empty());
            lemma_decls_model(bv);
        }
        if block.len() > 0 {
            let ghost out0 = rules_model(merged_rules@);
            let ghost mv0 = merged_rules@;
            merged_rules.push(
                Rule::AtRule(AtRule { rule_name: kname, rule_value: kvalue, block: Some(block) }),
            );
            proof {
                lemma_rules_model_push(mv0, merged_rules@.last());
                assert(merged_rules@ =~= mv0.push(merged_rules@.last()));
                assert(rule_model(merged_rules@.last()) == DeclM::At(
                    AtM { name: k.0, value: k.1, block: Option::Some(at_block_for(rsm, k)) },
                ));
                assert(at_merged_opt(rsm, k) == seq![rule_model(merged_rules@.last())]);
                assert(out0.push(rule_model(merged_rules@.last())) + ats_of(rsm, aks.skip(j + 1))
                    =~= out0 + (Seq::<DeclM>::empty() + (at_merged_opt(rsm, k) + ats_of(
                    rsm,
                    aks.skip(j + 1),
                ))));
            }
        } else {
            proof {
                assert(at_merged_opt(rsm, k) =~= Seq::<DeclM>::empty());
                assert(rules_model(merged_rules@) + (Seq::<DeclM>::empty() + (
                Seq::<DeclM>::empty() + ats_of(rsm, aks.skip(j + 1)))) =~= rules_model(
                    merged_rules@,
                ) + ats_of(rsm, aks.skip(j + 1)));
            }
        }
    }
    proof {
        assert(aks.skip(aks.len() as int) =~= Seq::<(Seq<char>, Seq<char>)>::empty());
        assert(ats_of(rsm, aks.skip(aks.len() as int)) =~= Seq::<DeclM>::empty());
        assert(rules_model(merged_rules@) + Seq::<DeclM>::empty() =~= rules_model(merged_rules@));
    }
    TranspiledCss(merged_rules)
}

/// One declaration rendered as compact CSS text, as [`decl_str`] describes:
/// `property:value;`, `@name value{...}` or `@name value;`, and
/// `sel1,sel2{...}`; no whitespace is inserted.
fn declaration_to_style_string(declaration: &Declaration) -> (r: String)
    ensures
        r@ == decl_str(decl_model(*declaration)),
    decreases declaration,
{
    match declaration {
        Declaration::Property(property) => {
            let mut out = String::new();
            out.append(property.property.as_str());
            push_char(&mut out, ':');
            out.append(property.value.as_str());
            push_char(&mut out, ';');
            proof {
                assert(out@ =~= property.property@ + seq![':'] + property.value@ + seq![';']);
            }
            out
        },
        Declaration::AtRule(at_rule) => {
            let mut out = String::new();
            push_char(&mut out, '@');
            out.append(at_rule.rule_name.as_str());
            push_char(&mut out, ' ');
            out.append(at_rule.rule_value.as_str());
            let ghost head = seq!['@'] + at_rule.rule_name@ + seq![' '] + at_rule.rule_value@;
            proof {
                assert(out@ =~= head);
            }
            match &at_rule.block {
                Some(block) => {
                    push_char(&mut out, '{');
                    proof {
                        lemma_decls_model(block@);
                        assert(decreases_to!(declaration => *at_rule));
                        assert(decreases_to!(*at_rule => at_rule.block));
                        assert(decreases_to!(at_rule.block => *block));
                        assert(decreases_to!(*block => block@));
                        assert(decreases_to!(declaration => block@));
                        assert(decls_model(block@).subrange(0, 0) =~= Seq::<DeclM>::empty());
                    }
                    let ghost bm = decls_model(block@);
                    let mut i: usize = 0;
                    while i < block.len()
                        invariant
                            i <= block@.len(),
                            bm == decls_model(block@),
                            bm.len() == block@.len(),
                            forall|k: int| 0 <= k < block@.len() ==> bm[k] == decl_model(
                                block@[k],
                            ),
                            out@ == head + seq!['{'] + decls_str(bm.subrange(0, i as int)),
                            decreases_to!(declaration => block@),
                        decreases block@.len() - i,
                    {
                        proof {
                            assert(decreases_to!(block@ => block@[i as int]));
                        }
                        let s = declaration_to_style_string(&block[i]);
                        out.append(s.as_str());
                        proof {
                            assert(bm.subrange(0, i as int + 1).drop_last() =~= bm.subrange(
                                0,
                                i as int,
                            ));
                            assert(bm.subrange(0, i as int + 1).last() == bm[i as int]);
                        }
                        i = i + 1;
                    }
                    push_char(&mut out, '}');
                    proof {
                        assert(bm.subrange(0, bm.len() as int) =~= bm);
                    }
                    out
                },
                None => {
                    push_char(&mut out, ';');
                    out
                },
            }
        },
        Declaration::QualifiedRule(rule) => {
            let mut out = join_strings(&rule.selectors.0, ",");
            proof {
                reveal_strlit(",");
                assert(","@ =~= seq![',']);
            }
            let ghost head = join_with(rule.selectors.model(), seq![',']);
            push_char(&mut out, '{');
            proof {
                lemma_decls_model(rule.block@);
                assert(decreases_to!(declaration => *rule));
                assert(decreases_to!(*rule => rule.block));
                assert(decreases_to!(rule.block => rule.block@));
                assert(decreases_to!(declaration => rule.block@));
                assert(decls_model(rule.block@).subrange(0, 0) =~= Seq::<DeclM>::empty());
            }
            let ghost bm = decls_model(rule.block@);
            let mut i: usize = 0;
            while i < rule.block.len()
                invariant
                    i <= rule.block@.len(),
                    bm == decls_model(rule.block@),
                    bm.len() == rule.block@.len(),
                    forall|k: int| 0 <= k < rule.block@.len() ==> bm[k] == decl_model(
                        rule.block@[k],
                    ),
                    out@ == head + seq!['{'] + decls_str(bm.subrange(0, i as int)),
                    decreases_to!(declaration => rule.block@),
                decreases rule.block@.len() - i,
            {
                proof {
                    assert(decreases_to!(rule.block@ => rule.block@[i as int]));
                }
                let s = declaration_to_style_string(&rule.block[i]);
                out.append(s.as_str());
                proof {
                    assert(bm.subrange(0, i as int + 1).drop_last() =~= bm.subrange(0, i as int));
                    assert(bm.subrange(0, i as int + 1).last() == bm[i as int]);
                }
                i = i + 1;
            }
            push_char(&mut out, '}');
            proof {
                assert(bm.subrange(0, bm.len() as int) =~= bm);
            }
            out
        },
    }
}

pub proof fn lemma_wrap_not_prop(ats: Seq<(Seq<char>, Seq<char>)>, d: DeclM)
    requires
        !(d is Prop),
    ensures
        !(wrap_rules(ats, d) is Prop),
    decreases ats.len(),
{
    if ats.len() > 0 {
        lemma_wrap_not_prop(
            ats.drop_last(),
            DeclM::At(
                AtM { name: ats.last().0, value: ats.last().1, block: Option::Some(seq![d]) },
            ),
        );
    }
}

/// The flattening walk never leaves a bare property at the top level.
pub proof fn lemma_trans_list_no_props(
    sels: Seq<Seq<char>>,
    ats: Seq<(Seq<char>, Seq<char>)>,
    ds: Seq<DeclM>,
    nest: bool,
)
    ensures
        no_props(trans_list(sels, ats, ds, nest)),
    decreases ds,
{
    if ds.len() > 0 {
        match ds[0] {
            DeclM::Prop(p) => {
                lemma_trans_list_no_props(sels, ats, ds.drop_first(), nest);
                if !nest {
                    lemma_wrap_not_prop(
                        ats,
                        DeclM::Qual(QualM { sels, block: seq![DeclM::Prop(p)] }),
                    );
                }
            },
            DeclM::At(a) => {
                assert(decreases_to!(ds => ds[0]));
                lemma_trans_at_no_props(sels, ats, a);
                lemma_trans_list_no_props(sels, ats, ds.drop_first(), true);
            },
            DeclM::Qual(q) => {
                assert(decreases_to!(ds => ds[0]));
                lemma_trans_qual_no_props(sels, ats, q);
                lemma_trans_list_no_props(sels, ats, ds.drop_first(), true);
            },
        }
    }
}

proof fn lemma_trans_at_no_props(sels: Seq<Seq<char>>, ats: Seq<(Seq<char>, Seq<char>)>, a: AtM)
    ensures
        no_props(trans_at(sels, ats, a)),
    decreases a,
{
    match a.block {
        Option::Some(block) => {
            assert(decreases_to!(a => a.block));
            assert(decreases_to!(a.block => block));
            if a.name == nest_kw() {
                match sel_loop(seq![Seq::<char>::empty()], a.value + seq!['{', '}']) {
                    SelOut::Found(ss, _) => {
                        lemma_trans_list_no_props(
                            subst_all(ss, parent_expr(sels)),
                            ats,
                            block,
                            false,
                        );
                    },
                    SelOut::Failed(_) => {},
                }
            } else {
                lemma_trans_list_no_props(sels, push_at(ats, a.name, a.value), block, false);
            }
        },
        Option::None => {},
    }
}

proof fn lemma_trans_qual_no_props(
    sels: Seq<Seq<char>>,
    ats: Seq<(Seq<char>, Seq<char>)>,
    q: QualM,
)
    ensures
        no_props(trans_qual(sels, ats, q)),
    decreases q,
{
    assert(decreases_to!(q => q.block));
    lemma_trans_list_no_props(subst_sels(q.sels, parent_expr(sels)), ats, q.block, false);
}

/// The flat output of transpilation: an ordered sequence of rules.
#[derive(Debug, PartialEq, Eq)]
pub struct TranspiledCss(pub Vec<Rule>);

/// What transpilation makes of a parsed fragment under a root selector
/// group: the flattening walk followed by the merge pass.
pub open spec fn transpile_result(sels: Seq<Seq<char>>, ds: Seq<DeclM>) -> Seq<DeclM> {
    merge_model(trans_list(sels, Seq::<(Seq<char>, Seq<char>)>::empty(), ds, false))
}

/// The views of a sequence of string slices.
pub open spec fn strs_views(v: Seq<&str>) -> Seq<Seq<char>> {
    v.map_values(|s: &str| s@)
}

impl TranspiledCss {
    /// The model of the flat output.
    pub open spec fn model(self) -> Seq<DeclM> {
        rules_model(self.0@)
    }

    /// Flattens a parsed fragment against the root selector group
    /// `classes`, as [`transpile_result`] describes.
    pub fn transpile(classes: &[&str], runtime_css: RuntimeCss) -> (r: TranspiledCss)
        ensures
            r.model() == transpile_result(strs_views(classes@), runtime_css.model()),
    {
        let mut sels: Vec<String> = Vec::new();
        let mut i: usize = 0;
        while i < classes.len()
            invariant
                i <= classes@.len(),
                sels@.len() == i,
                forall|x: int| 0 <= x < i ==> (#[trigger] sels@[x])@ == classes@[x]@,
            decreases classes@.len() - i,
        {
            sels.push(classes[i].to_owned());
            i = i + 1;
        }
        proof {
            assert(seq_views(sels@) =~= strs_views(classes@));
        }
        let selectors = Selectors(sels);
        let at_rules: Vec<(String, String)> = Vec::new();
        proof {
            assert(ats_views(at_rules@) =~= Seq::<(Seq<char>, Seq<char>)>::empty());
        }
        let declarations = transpile_declarations(&selectors, &at_rules, &runtime_css.0);
        proof {
            lemma_trans_list_no_props(
                selectors.model(),
                Seq::<(Seq<char>, Seq<char>)>::empty(),
                decls_model(runtime_css.0@),
                false,
            );
        }
        let rules = into_rules(declarations);
        merge_same_selectors(rules)
    }

    /// Renders the flat rules as minified CSS text, as [`decls_str`]
    /// describes.
    pub fn to_style_string(self) -> (r: String)
        ensures
            r@ == decls_str(self.model()),
    {
        let ghost full = rules_model(self.0@);
        let mut rules = self.0;
        let mut style_string = String::new();
        let ghost mut done: Seq<DeclM> = Seq::<DeclM>::empty();
        proof {
            assert(done + rules_model(rules@) =~= full);
            assert(decls_str(done) =~= Seq::<char>::empty());
        }
        while rules.len() > 0
            invariant
                full == done + rules_model(rules@),
                style_string@ == decls_str(done),
            decreases rules@.len(),
        {
            let ghost pre = rules@;
            let ghost done0 = done;
            let rule = rules.remove(0);
            let ghost m = rule_model(rule);
            let d = match rule {
                Rule::AtRule(at_rule) => Declaration::AtRule(at_rule),
                Rule::QualifiedRule(q) => Declaration::QualifiedRule(q),
            };
            let s = declaration_to_style_string(&d);
            style_string.append(s.as_str());
            proof {
                assert(rules@ =~= pre.drop_first());
                assert(pre[0] == rule);
                assert(decl_model(d) == m);
                assert(rules_model(pre) == seq![m] + rules_model(pre.drop_first()));
                done = done.push(m);
                assert(done0 + (seq![m] + rules_model(rules@)) =~= done + rules_model(rules@));
                assert(done.drop_last() =~= done0);
                assert(done.last() == m);
            }
        }
        proof {
            assert(rules_model(rules@) =~= Seq::<DeclM>::empty());
            assert(done + Seq::<DeclM>::empty() =~= done);
        }
        style_string
    }
}

} // verus!
