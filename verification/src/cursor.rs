//! The character scanner and the recursive-descent parser for the
//! declaration-list grammar.
//!
//! A [`Cursor`] owns the characters of one input fragment and a position;
//! its model is the sequence of characters not yet consumed.  Every scanning
//! method states exactly which prefix it consumes and what it returns, in
//! terms of the spec functions of [`crate::text`].

use vstd::prelude::*;
use crate::text::contains_char;
use crate::text::find_delim;
use crate::text::find_space;
use crate::text::is_space_char;
use crate::text::lemma_find_delim_bounds;
use crate::text::lemma_find_space_bounds;
use crate::text::lemma_skip_spaces_idem;
use crate::text::lemma_skip_spaces_len;
use crate::text::push_char;
use crate::text::skip_spaces;
use crate::text::seq_views;
use crate::text::str_to_chars;
use crate::text::trim_end_spec;
use crate::text::trim_end_str;
use vstd::string::StringExecFns;
use crate::ast::at_model;
use crate::ast::decls_model;
use crate::ast::lemma_decls_model_push;
use crate::ast::qual_model;
use crate::ast::AtM;
use crate::ast::AtRule;
use crate::ast::Declaration;
use crate::ast::QualifiedRule;
use crate::ast::DeclM;
use crate::ast::Property;
use crate::ast::PropM;
use crate::ast::QualM;
use crate::ast::Selectors;

verus! {

/// How a parse step failed: `Fatal` when nothing usable was recognised,
/// `Ignorable` when a prefix parsed cleanly and is returned together with a
/// diagnostic message.
pub enum ParseError<T> {
    Fatal,
    Ignorable(T, String),
}

/// Folds the groups that are still open when the input runs out inside a
/// parenthesised span: each group closes with its collected content in its
/// own parenthesis pair and is appended to the group around it.
pub open spec fn close_frames(stack: Seq<Seq<char>>) -> Seq<char>
    decreases stack.len(),
{
    if stack.len() <= 1 {
        seq!['('] + (if stack.len() == 1 {
            stack[0]
        } else {
            Seq::<char>::empty()
        }) + seq![')']
    } else {
        let closed = seq!['('] + stack.last() + seq![')'];
        close_frames(
            stack.drop_last().update(stack.len() - 2, stack[stack.len() - 2] + closed),
        )
    }
}

/// One step per character of a parenthesis scan.  `stack` holds the collected
/// content of each open group, outermost first; `seg` the characters of the
/// current group since its last delimiter.  A `(` completes the segment and
/// opens a group; a `)` closes the innermost group, whose text — its own
/// parenthesis pair included — is appended to the group around it; when the
/// input runs out, the unfinished segment is discarded and the open groups
/// are folded.  Returns the text of the outermost group and the input left
/// after it.
pub open spec fn paren_run(stack: Seq<Seq<char>>, seg: Seq<char>, s: Seq<char>) -> (Seq<
    char,
>, Seq<char>)
    recommends
        stack.len() >= 1,
    decreases s.len(),
{
    if s.len() == 0 {
        (close_frames(stack), Seq::<char>::empty())
    } else {
        let c = s[0];
        if c == '(' {
            paren_run(
                stack.update(stack.len() - 1, stack.last() + seg).push(Seq::<char>::empty()),
                Seq::<char>::empty(),
                s.drop_first(),
            )
        } else if c == ')' {
            let closed = seq!['('] + stack.last() + seg + seq![')'];
            if stack.len() <= 1 {
                (closed, s.drop_first())
            } else {
                paren_run(
                    stack.drop_last().update(
                        stack.len() - 2,
                        stack[stack.len() - 2] + closed,
                    ),
                    Seq::<char>::empty(),
                    s.drop_first(),
                )
            }
        } else {
            paren_run(stack, seg.push(c), s.drop_first())
        }
    }
}

/// What [`Cursor::take_paren`] consumes and returns: `None` unless the input
/// begins with `(`; otherwise the full text of the balanced span, enclosing
/// parentheses included and nested groups reproduced verbatim, and the
/// input left after it.
pub open spec fn paren_take(s: Seq<char>) -> Option<(Seq<char>, Seq<char>)> {
    if s.len() > 0 && s[0] == '(' {
        Some(paren_run(seq![Seq::<char>::empty()], Seq::<char>::empty(), s.drop_first()))
    } else {
        None
    }
}

pub proof fn lemma_paren_run_rem(stack: Seq<Seq<char>>, seg: Seq<char>, s: Seq<char>)
    ensures
        paren_run(stack, seg, s).1.len() <= s.len(),
    decreases s.len(),
{
    if s.len() > 0 {
        let c = s[0];
        if c == '(' {
            lemma_paren_run_rem(
                stack.update(stack.len() - 1, stack.last() + seg).push(Seq::<char>::empty()),
                Seq::<char>::empty(),
                s.drop_first(),
            );
        } else if c == ')' {
            if stack.len() > 1 {
                lemma_paren_run_rem(
                    stack.drop_last().update(
                        stack.len() - 2,
                        stack[stack.len() - 2] + (seq!['('] + stack.last() + seg + seq![')']),
                    ),
                    Seq::<char>::empty(),
                    s.drop_first(),
                );
            }
        } else {
            lemma_paren_run_rem(stack, seg.push(c), s.drop_first());
        }
    }
}

pub proof fn lemma_close_frames_len(stack: Seq<Seq<char>>)
    ensures
        close_frames(stack).len() >= 2,
    decreases stack.len(),
{
    if stack.len() > 1 {
        lemma_close_frames_len(
            stack.drop_last().update(
                stack.len() - 2,
                stack[stack.len() - 2] + (seq!['('] + stack.last() + seq![')']),
            ),
        );
    }
}

/// The text of a parenthesised span always holds at least its enclosing
/// pair.
pub proof fn lemma_paren_run_len(stack: Seq<Seq<char>>, seg: Seq<char>, s: Seq<char>)
    ensures
        paren_run(stack, seg, s).0.len() >= 2,
    decreases s.len(),
{
    if s.len() == 0 {
        lemma_close_frames_len(stack);
    } else {
        let c = s[0];
        if c == '(' {
            lemma_paren_run_len(
                stack.update(stack.len() - 1, stack.last() + seg).push(Seq::<char>::empty()),
                Seq::<char>::empty(),
                s.drop_first(),
            );
        } else if c == ')' {
            if stack.len() > 1 {
                lemma_paren_run_len(
                    stack.drop_last().update(
                        stack.len() - 2,
                        stack[stack.len() - 2] + (seq!['('] + stack.last() + seg + seq![')']),
                    ),
                    Seq::<char>::empty(),
                    s.drop_first(),
                );
            }
        } else {
            lemma_paren_run_len(stack, seg.push(c), s.drop_first());
        }
    }
}

/// The delimiters of the selector grammar.
pub open spec fn sel_delims() -> Seq<char> {
    seq!['(', ',', '{', ';']
}

/// The delimiters of the property grammar.
pub open spec fn prop_delims() -> Seq<char> {
    seq![':', '{', '}', ';']
}

/// Drops the trailing selector slot when it stayed empty.
pub open spec fn sels_pop(sels: Seq<Seq<char>>) -> Seq<Seq<char>> {
    if sels.len() > 0 && sels.last().len() == 0 {
        sels.drop_last()
    } else {
        sels
    }
}

/// What a selector scan yields: the selector group and the remaining input,
/// or the remaining input at the failure.
pub enum SelOut {
    Found(Seq<Seq<char>>, Seq<char>),
    Failed(Seq<char>),
}

/// One round of the selector scan.  `sels` holds the selectors collected so
/// far, the last one still in progress.  Text up to the next delimiter
/// extends the current selector: a parenthesised span is appended verbatim,
/// a comma closes the selector (end-trimmed), `{` ends the group (not
/// consumed), `;` is a failure, and when the input runs out first the
/// segment after the last delimiter is discarded.
pub open spec fn sel_loop(sels: Seq<Seq<char>>, s: Seq<char>) -> SelOut
    recommends
        sels.len() >= 1,
    decreases s.len(),
    via sel_loop_dec
{
    match find_delim(s, sel_delims(), 0) {
        None => SelOut::Found(sels_pop(sels), Seq::<char>::empty()),
        Some(j) => {
            let v = s.subrange(0, j);
            if s[j] == '(' {
                match paren_take(s.skip(j)) {
                    Some(pr) => sel_loop(
                        sels.update(sels.len() - 1, sels.last() + v + pr.0),
                        pr.1,
                    ),
                    None => SelOut::Failed(s),
                }
            } else if s[j] == ',' {
                sel_loop(
                    sels.update(sels.len() - 1, sels.last() + trim_end_spec(v)).push(
                        Seq::<char>::empty(),
                    ),
                    skip_spaces(s.skip(j + 1)),
                )
            } else if s[j] == '{' {
                SelOut::Found(
                    sels_pop(sels.update(sels.len() - 1, sels.last() + trim_end_spec(v))),
                    s.skip(j),
                )
            } else {
                SelOut::Failed(s.skip(j))
            }
        },
    }
}

#[via_fn]
proof fn sel_loop_dec(sels: Seq<Seq<char>>, s: Seq<char>) {
    lemma_find_delim_bounds(s, sel_delims(), 0);
    if let Some(j) = find_delim(s, sel_delims(), 0) {
        if s[j] == '(' {
            lemma_paren_run_rem(
                seq![Seq::<char>::empty()],
                Seq::<char>::empty(),
                s.skip(j).drop_first(),
            );
        }
        if s[j] == ',' {
            lemma_skip_spaces_len(s.skip(j + 1));
        }
    }
}

/// What a property scan yields: the trimmed name and value together with
/// the remaining input, or the remaining input at the failure.
pub enum PropOut {
    Found(Seq<char>, Seq<char>, Seq<char>),
    Failed(Seq<char>),
}

/// What [`Cursor::parse_property`] consumes and returns.  The name runs to
/// the first grammar delimiter, which must be `:`; the value to the next
/// delimiter, which must be `;` (consumed) or `}` (left in place); both are
/// end-trimmed.  The delimiter after the name is consumed even when it is
/// not `:`.
pub open spec fn prop_parse(s: Seq<char>) -> PropOut {
    let s1 = skip_spaces(s);
    match find_delim(s1, prop_delims(), 0) {
        None => PropOut::Failed(Seq::<char>::empty()),
        Some(j) => {
            if s1[j] != ':' {
                PropOut::Failed(s1.skip(j))
            } else {
                let name = trim_end_spec(s1.subrange(0, j));
                let s2 = skip_spaces(s1.skip(j).drop_first());
                match find_delim(s2, prop_delims(), 0) {
                    None => PropOut::Failed(Seq::<char>::empty()),
                    Some(k) => {
                        let value = trim_end_spec(s2.subrange(0, k));
                        if s2[k] == ';' {
                            PropOut::Found(name, value, s2.skip(k).drop_first())
                        } else if s2[k] == '}' {
                            PropOut::Found(name, value, s2.skip(k))
                        } else {
                            PropOut::Failed(s2.skip(k))
                        }
                    },
                }
            }
        },
    }
}

/// The remaining input of a selector scan outcome.
pub open spec fn sel_out_rem(o: SelOut) -> Seq<char> {
    match o {
        SelOut::Found(_, r) => r,
        SelOut::Failed(r) => r,
    }
}

pub proof fn lemma_sel_loop_rem(sels: Seq<Seq<char>>, s: Seq<char>)
    ensures
        sel_out_rem(sel_loop(sels, s)).len() <= s.len(),
    decreases s.len(),
{
    lemma_find_delim_bounds(s, sel_delims(), 0);
    if let Some(j) = find_delim(s, sel_delims(), 0) {
        let v = s.subrange(0, j);
        if s[j] == '(' {
            lemma_paren_run_rem(
                seq![Seq::<char>::empty()],
                Seq::<char>::empty(),
                s.skip(j).drop_first(),
            );
            if let Some(pr) = paren_take(s.skip(j)) {
                lemma_sel_loop_rem(sels.update(sels.len() - 1, sels.last() + v + pr.0), pr.1);
            }
        } else if s[j] == ',' {
            lemma_skip_spaces_len(s.skip(j + 1));
            lemma_sel_loop_rem(
                sels.update(sels.len() - 1, sels.last() + trim_end_spec(v)).push(
                    Seq::<char>::empty(),
                ),
                skip_spaces(s.skip(j + 1)),
            );
        }
    }
}

/// The diagnostic raised when an at-rule cannot be parsed at all.
pub open spec fn msg_at_rule() -> Seq<char> {
    "[CSS parse error] at-rule parse error"@
}

/// The diagnostic raised when a qualified rule cannot be parsed at all.
pub open spec fn msg_qual_rule() -> Seq<char> {
    "[CSS parse error] qualified rule parse error"@
}

/// The diagnostic raised when a property declaration is malformed.
pub open spec fn msg_property() -> Seq<char> {
    "[CSS parse error] property declaration is expected"@
}

/// The diagnostic raised for a bare property after a nested rule.
pub open spec fn msg_nesting() -> Seq<char> {
    "[CSS parse error] property after nesting is invalid and ignored"@
}

/// What an at-rule parse yields: a fatal failure, a complete rule, or a
/// partial rule with a diagnostic; each with the remaining input.
pub enum AtOut {
    Fatal(Seq<char>),
    Done(AtM, Seq<char>),
    Part(AtM, Seq<char>, Seq<char>),
}

/// What a qualified-rule parse yields, as [`AtOut`].
pub enum QualOut {
    Fatal(Seq<char>),
    Done(QualM, Seq<char>),
    Part(QualM, Seq<char>, Seq<char>),
}

/// What a declaration-list parse yields: the declarations parsed so far and
/// the remaining input, with a diagnostic when a trailing fragment was
/// malformed.  A declaration list never fails fatally.
pub enum ListOut {
    Done(Seq<DeclM>, Seq<char>),
    Part(Seq<DeclM>, Seq<char>, Seq<char>),
}

/// What [`Cursor::parse_at_rule`] consumes and returns: after spaces, `@`,
/// then a name up to the first space, spaces, and a value up to `{` or `;`
/// (end-trimmed).  A `{` opens a block parsed as a declaration list and
/// closed by `}`; a `;` ends the statement form.
pub open spec fn at_parse(s: Seq<char>) -> AtOut
    decreases s.len(), 0int,
    via at_parse_dec
{
    let s1 = skip_spaces(s);
    if s1.len() == 0 {
        AtOut::Fatal(s1)
    } else if s1[0] != '@' {
        AtOut::Fatal(s1)
    } else {
        let s2 = s1.drop_first();
        match find_space(s2, 0) {
            None => AtOut::Fatal(Seq::<char>::empty()),
            Some(j) => {
                let name = s2.subrange(0, j);
                let s3 = skip_spaces(s2.skip(j));
                match find_delim(s3, at_delims(), 0) {
                    None => AtOut::Fatal(Seq::<char>::empty()),
                    Some(k) => {
                        let value = trim_end_spec(s3.subrange(0, k));
                        if s3[k] == '{' {
                            let s4 = s3.skip(k + 1);
                            match list_go(Seq::<DeclM>::empty(), false, Option::None, s4) {
                                ListOut::Done(ds, r) => {
                                    let r2 = skip_spaces(r);
                                    if r2.len() > 0 && r2[0] == '}' {
                                        AtOut::Done(
                                            AtM { name, value, block: Option::Some(ds) },
                                            r2.drop_first(),
                                        )
                                    } else {
                                        AtOut::Fatal(r2)
                                    }
                                },
                                ListOut::Part(ds, m, r) => {
                                    let r2 = skip_spaces(r);
                                    if r2.len() > 0 && r2[0] == '}' {
                                        AtOut::Part(
                                            AtM { name, value, block: Option::Some(ds) },
                                            m,
                                            r2.drop_first(),
                                        )
                                    } else {
                                        AtOut::Fatal(r2)
                                    }
                                },
                            }
                        } else {
                            AtOut::Done(
                                AtM { name, value, block: Option::None },
                                s3.skip(k + 1),
                            )
                        }
                    },
                }
            },
        }
    }
}

#[via_fn]
proof fn at_parse_dec(s: Seq<char>) {
    lemma_skip_spaces_len(s);
    let s1 = skip_spaces(s);
    if s1.len() > 0 && s1[0] == '@' {
        let s2 = s1.drop_first();
        lemma_find_space_bounds(s2, 0);
        if let Some(j) = find_space(s2, 0) {
            lemma_skip_spaces_len(s2.skip(j));
            let s3 = skip_spaces(s2.skip(j));
            lemma_find_delim_bounds(s3, at_delims(), 0);
        }
    }
}

/// The delimiters that end an at-rule's value.
pub open spec fn at_delims() -> Seq<char> {
    seq!['{', ';']
}

/// What [`Cursor::parse_qualified_rule`] consumes and returns: after
/// spaces, a selector group, `{`, a declaration list and `}`.
pub open spec fn qual_parse(s: Seq<char>) -> QualOut
    decreases s.len(), 0int,
    via qual_parse_dec
{
    let s1 = skip_spaces(s);
    match sel_loop(seq![Seq::<char>::empty()], s1) {
        SelOut::Failed(r) => QualOut::Fatal(r),
        SelOut::Found(sels, r) => {
            if r.len() == 0 {
                QualOut::Fatal(r)
            } else if r[0] != '{' {
                QualOut::Fatal(r)
            } else {
                match list_go(Seq::<DeclM>::empty(), false, Option::None, r.drop_first()) {
                    ListOut::Done(ds, r2) => {
                        let r3 = skip_spaces(r2);
                        if r3.len() > 0 && r3[0] == '}' {
                            QualOut::Done(QualM { sels, block: ds }, r3.drop_first())
                        } else {
                            QualOut::Fatal(r3)
                        }
                    },
                    ListOut::Part(ds, m, r2) => {
                        let r3 = skip_spaces(r2);
                        if r3.len() > 0 && r3[0] == '}' {
                            QualOut::Part(QualM { sels, block: ds }, m, r3.drop_first())
                        } else {
                            QualOut::Fatal(r3)
                        }
                    },
                }
            }
        },
    }
}

#[via_fn]
proof fn qual_parse_dec(s: Seq<char>) {
    lemma_skip_spaces_len(s);
    let s1 = skip_spaces(s);
    lemma_sel_loop_rem(seq![Seq::<char>::empty()], s1);
}

/// One round of [`Cursor::parse_declaration_list`]: after spaces, the list
/// ends at `}` or at the end of the input; `@` opens an at-rule, `&` a
/// qualified rule, anything else a property declaration — the latter only
/// before any nested rule, and only while well formed.  A fatal child
/// failure ends the list with a diagnostic; a partial child is kept and its
/// diagnostic retained.
pub open spec fn list_go(
    acc: Seq<DeclM>,
    nest: bool,
    err: Option<Seq<char>>,
    s: Seq<char>,
) -> ListOut
    decreases s.len(), 1int,
    via list_go_dec
{
    let s1 = skip_spaces(s);
    if s1.len() == 0 || s1[0] == '}' {
        match err {
            Option::Some(m) => ListOut::Part(acc, m, s1),
            Option::None => ListOut::Done(acc, s1),
        }
    } else if s1[0] == '@' {
        match at_parse(s1) {
            AtOut::Done(a, r) => if r.len() < s.len() {
                list_go(acc.push(DeclM::At(a)), true, err, r)
            } else {
                arbitrary()
            },
            AtOut::Part(a, m, r) => if r.len() < s.len() {
                list_go(acc.push(DeclM::At(a)), true, Option::Some(m), r)
            } else {
                arbitrary()
            },
            AtOut::Fatal(r) => ListOut::Part(acc, msg_at_rule(), r),
        }
    } else if s1[0] == '&' {
        match qual_parse(s1) {
            QualOut::Done(q, r) => if r.len() < s.len() {
                list_go(acc.push(DeclM::Qual(q)), true, err, r)
            } else {
                arbitrary()
            },
            QualOut::Part(q, m, r) => if r.len() < s.len() {
                list_go(acc.push(DeclM::Qual(q)), true, Option::Some(m), r)
            } else {
                arbitrary()
            },
            QualOut::Fatal(r) => ListOut::Part(acc, msg_qual_rule(), r),
        }
    } else if nest {
        ListOut::Part(acc, msg_nesting(), s1)
    } else {
        match prop_parse(s1) {
            PropOut::Found(n, v, r) => if r.len() < s.len() {
                list_go(acc.push(DeclM::Prop(PropM { name: n, value: v })), nest, err, r)
            } else {
                arbitrary()
            },
            PropOut::Failed(r) => ListOut::Part(acc, msg_property(), r),
        }
    }
}

#[via_fn]
proof fn list_go_dec(acc: Seq<DeclM>, nest: bool, err: Option<Seq<char>>, s: Seq<char>) {
    lemma_skip_spaces_len(s);
}

pub proof fn lemma_at_parse_rem(s: Seq<char>)
    ensures
        at_parse(s) matches AtOut::Done(_, r) ==> r.len() < s.len(),
        at_parse(s) matches AtOut::Part(_, _, r) ==> r.len() < s.len(),
        at_parse(s) matches AtOut::Fatal(r) ==> r.len() <= s.len(),
    decreases s.len(), 0int,
{
    lemma_skip_spaces_len(s);
    let s1 = skip_spaces(s);
    if s1.len() > 0 && s1[0] == '@' {
        let s2 = s1.drop_first();
        lemma_find_space_bounds(s2, 0);
        if let Some(j) = find_space(s2, 0) {
            lemma_skip_spaces_len(s2.skip(j));
            let s3 = skip_spaces(s2.skip(j));
            lemma_find_delim_bounds(s3, at_delims(), 0);
            if let Some(k) = find_delim(s3, at_delims(), 0) {
                if s3[k] == '{' {
                    let s4 = s3.skip(k + 1);
                    lemma_list_go_rem(Seq::<DeclM>::empty(), false, Option::None, s4);
                    match list_go(Seq::<DeclM>::empty(), false, Option::None, s4) {
                        ListOut::Done(_, r) => {
                            lemma_skip_spaces_len(r);
                        },
                        ListOut::Part(_, _, r) => {
                            lemma_skip_spaces_len(r);
                        },
                    }
                }
            }
        }
    }
}

pub proof fn lemma_qual_parse_rem(s: Seq<char>)
    ensures
        qual_parse(s) matches QualOut::Done(_, r) ==> r.len() < s.len(),
        qual_parse(s) matches QualOut::Part(_, _, r) ==> r.len() < s.len(),
        qual_parse(s) matches QualOut::Fatal(r) ==> r.len() <= s.len(),
    decreases s.len(), 0int,
{
    lemma_skip_spaces_len(s);
    let s1 = skip_spaces(s);
    lemma_sel_loop_rem(seq![Seq::<char>::empty()], s1);
    if let SelOut::Found(_, r) = sel_loop(seq![Seq::<char>::empty()], s1) {
        if r.len() > 0 && r[0] == '{' {
            lemma_list_go_rem(Seq::<DeclM>::empty(), false, Option::None, r.drop_first());
            match list_go(Seq::<DeclM>::empty(), false, Option::None, r.drop_first()) {
                ListOut::Done(_, r2) => {
                    lemma_skip_spaces_len(r2);
                },
                ListOut::Part(_, _, r2) => {
                    lemma_skip_spaces_len(r2);
                },
            }
        }
    }
}

pub proof fn lemma_list_go_rem(acc: Seq<DeclM>, nest: bool, err: Option<Seq<char>>, s: Seq<char>)
    ensures
        list_go(acc, nest, err, s) matches ListOut::Done(_, r) ==> r.len() <= s.len(),
        list_go(acc, nest, err, s) matches ListOut::Part(_, _, r) ==> r.len() <= s.len(),
    decreases s.len(), 1int,
{
    lemma_skip_spaces_len(s);
    let s1 = skip_spaces(s);
    if s1.len() == 0 || s1[0] == '}' {
    } else if s1[0] == '@' {
        lemma_at_parse_rem(s1);
        match at_parse(s1) {
            AtOut::Done(a, r) => {
                lemma_list_go_rem(acc.push(DeclM::At(a)), true, err, r);
            },
            AtOut::Part(a, m, r) => {
                lemma_list_go_rem(acc.push(DeclM::At(a)), true, Option::Some(m), r);
            },
            AtOut::Fatal(_) => {},
        }
    } else if s1[0] == '&' {
        lemma_qual_parse_rem(s1);
        match qual_parse(s1) {
            QualOut::Done(q, r) => {
                lemma_list_go_rem(acc.push(DeclM::Qual(q)), true, err, r);
            },
            QualOut::Part(q, m, r) => {
                lemma_list_go_rem(acc.push(DeclM::Qual(q)), true, Option::Some(m), r);
            },
            QualOut::Fatal(_) => {},
        }
    } else if nest {
    } else {
        lemma_prop_parse_rem(s1);
        match prop_parse(s1) {
            PropOut::Found(n, v, r) => {
                lemma_list_go_rem(
                    acc.push(DeclM::Prop(PropM { name: n, value: v })),
                    nest,
                    err,
                    r,
                );
            },
            PropOut::Failed(_) => {},
        }
    }
}

pub proof fn lemma_prop_parse_rem(s: Seq<char>)
    ensures
        prop_parse(s) matches PropOut::Found(_, _, r) ==> r.len() < s.len(),
        prop_parse(s) matches PropOut::Failed(r) ==> r.len() <= s.len(),
{
    lemma_skip_spaces_len(s);
    let s1 = skip_spaces(s);
    lemma_find_delim_bounds(s1, prop_delims(), 0);
    if let Some(j) = find_delim(s1, prop_delims(), 0) {
        if s1[j] == ':' {
            let s2 = skip_spaces(s1.skip(j).drop_first());
            lemma_skip_spaces_len(s1.skip(j).drop_first());
            lemma_find_delim_bounds(s2, prop_delims(), 0);
        }
    }
}

/// Closes a selector accumulation: drops the empty trailing slot, if any.
fn finish_selectors(selectors: Vec<String>) -> (r: Selectors)
    requires
        selectors@.len() >= 1,
    ensures
        r.model() == sels_pop(seq_views(selectors@)),
{
    let ghost orig = selectors@;
    let mut selectors = selectors;
    let n = selectors.len();
    if selectors[n - 1].as_str().is_empty() {
        let _ = selectors.pop();
        proof {
            assert(seq_views(orig).last().len() == 0);
            assert(seq_views(selectors@) =~= seq_views(orig).drop_last());
        }
    } else {
        proof {
            assert(seq_views(orig).last().len() != 0);
        }
    }
    Selectors(selectors)
}

/// A consuming scanner over one input fragment.
pub struct Cursor {
    chars: Vec<char>,
    pos: usize,
}

impl Cursor {
    /// The position never runs past the end of the characters.
    pub closed spec fn wf(&self) -> bool {
        self.pos <= self.chars@.len()
    }

    /// The characters not yet consumed.
    pub closed spec fn remaining(&self) -> Seq<char> {
        self.chars@.skip(self.pos as int)
    }

    pub fn new(content: &str) -> (c: Cursor)
        ensures
            c.wf(),
            c.remaining() == content@,
    {
        let c = Cursor { chars: str_to_chars(content), pos: 0 };
        proof {
            assert(c.remaining() =~= content@);
        }
        c
    }

    pub fn is_empty(&self) -> (r: bool)
        requires
            self.wf(),
        ensures
            r == (self.remaining().len() == 0),
    {
        self.pos == self.chars.len()
    }

    /// Whether the next character is exactly `ch`; consumes nothing.
    pub fn peek(&self, ch: char) -> (r: bool)
        requires
            self.wf(),
        ensures
            r == (self.remaining().len() > 0 && self.remaining()[0] == ch),
    {
        self.pos < self.chars.len() && self.chars[self.pos] == ch
    }

    pub fn skip_white_space(&mut self)
        requires
            old(self).wf(),
        ensures
            final(self).wf(),
            final(self).remaining() == skip_spaces(old(self).remaining()),
    {
        let ghost orig: Cursor = *self;
        while self.pos < self.chars.len() && is_space_char(self.chars[self.pos])
            invariant
                self.wf(),
                self.chars@ == orig.chars@,
                skip_spaces(orig.remaining()) == skip_spaces(self.remaining()),
            decreases self.chars@.len() - self.pos,
        {
            proof {
                assert(self.remaining().drop_first() =~= self.chars@.skip(self.pos as int + 1));
            }
            self.pos = self.pos + 1;
        }
    }

    /// Consumes the next character only when it is exactly `ch` and returns
    /// `Some(ch)` then; otherwise returns `None` and consumes nothing.
    pub fn take(&mut self, ch: char) -> (r: Option<char>)
        requires
            old(self).wf(),
        ensures
            final(self).wf(),
            old(self).remaining().len() > 0 && old(self).remaining()[0] == ch ==> r == Some(ch)
                && final(self).remaining() == old(self).remaining().drop_first(),
            !(old(self).remaining().len() > 0 && old(self).remaining()[0] == ch) ==> r is None
                && final(self).remaining() == old(self).remaining(),
    {
        if self.pos < self.chars.len() && self.chars[self.pos] == ch {
            proof {
                assert(self.remaining().drop_first() =~= self.chars@.skip(self.pos as int + 1));
            }
            self.pos = self.pos + 1;
            Some(ch)
        } else {
            None
        }
    }

    /// Consumes up to, but not including, the first character that occurs in
    /// `delimiters`, and returns the consumed text with that delimiter.
    /// When the input runs out first, everything is consumed and the
    /// accumulated text is discarded.
    pub fn take_until(&mut self, delimiters: &[char]) -> (r: Option<(String, char)>)
        requires
            old(self).wf(),
        ensures
            final(self).wf(),
            ({
                let rem = old(self).remaining();
                match find_delim(rem, delimiters@, 0) {
                    Some(j) => {
                        &&& r matches Some(p)
                        &&& p.0@ == rem.subrange(0, j)
                        &&& p.1 == rem[j]
                        &&& final(self).remaining() == rem.skip(j)
                    },
                    None => r is None && final(self).remaining().len() == 0,
                }
            }),
    {
        let ghost orig: Cursor = *self;
        let mut ret = String::new();
        loop
            invariant
                orig == *old(self),
                self.wf(),
                self.chars@ == orig.chars@,
                orig.pos <= self.pos,
                ret@ == orig.remaining().subrange(0, self.pos - orig.pos),
                find_delim(orig.remaining(), delimiters@, 0) == find_delim(
                    orig.remaining(),
                    delimiters@,
                    self.pos - orig.pos,
                ),
            decreases self.chars@.len() - self.pos,
        {
            if self.pos < self.chars.len() {
                let c = self.chars[self.pos];
                proof {
                    assert(orig.remaining()[self.pos - orig.pos] == c);
                }
                if contains_char(delimiters, c) {
                    proof {
                        assert(self.chars@.skip(self.pos as int) =~= orig.remaining().skip(
                            self.pos - orig.pos,
                        ));
                    }
                    return Some((ret, c));
                } else {
                    push_char(&mut ret, c);
                    proof {
                        assert(ret@ =~= orig.remaining().subrange(0, self.pos + 1 - orig.pos));
                    }
                    self.pos = self.pos + 1;
                }
            } else {
                return None;
            }
        }
    }

    /// Consumes a `(`-delimited, nesting-aware span and returns its text,
    /// as [`paren_take`] describes.  When the next character is not `(`,
    /// that one character is still consumed (unless the input is empty) and
    /// `None` is returned.
    pub fn take_paren(&mut self) -> (r: Option<String>)
        requires
            old(self).wf(),
        ensures
            final(self).wf(),
            ({
                let rem = old(self).remaining();
                match paren_take(rem) {
                    Some(pr) => {
                        &&& r matches Some(t)
                        &&& t@ == pr.0
                        &&& final(self).remaining() == pr.1
                    },
                    None => r is None && final(self).remaining() == rem,
                }
            }),
    {
        if self.take('(').is_none() {
            return None;
        }
        let mut stack: Vec<String> = Vec::new();
        stack.push(String::new());
        let mut seg = String::new();
        proof {
            assert(seq_views(stack@) =~= seq![Seq::<char>::empty()]);
        }
        loop
            invariant
                self.wf(),
                stack@.len() >= 1,
                old(self).remaining().len() > 0 && old(self).remaining()[0] == '(',
                paren_take(old(self).remaining()) == Some(
                    paren_run(seq_views(stack@), seg@, self.remaining()),
                ),
            decreases self.remaining().len(),
        {
            let ghost vs0 = seq_views(stack@);
            let ghost seg0 = seg@;
            let ghost rem_i = self.remaining();
            if self.pos == self.chars.len() {
                // Input ran out inside the parentheses: close every group
                // that is still open, innermost first.
                while stack.len() > 1
                    invariant
                        stack@.len() >= 1,
                        close_frames(seq_views(stack@)) == close_frames(vs0),
                    decreases stack@.len(),
                {
                    let ghost ws0 = seq_views(stack@);
                    let f = stack.pop().unwrap();
                    let mut p = stack.pop().unwrap();
                    push_char(&mut p, '(');
                    p.append(f.as_str());
                    push_char(&mut p, ')');
                    stack.push(p);
                    proof {
                        assert(seq_views(stack@) =~~= ws0.drop_last().update(
                            ws0.len() - 2,
                            ws0[ws0.len() - 2] + (seq!['('] + ws0.last() + seq![')']),
                        ));
                    }
                }
                let f = stack.pop().unwrap();
                let mut res = String::new();
                push_char(&mut res, '(');
                res.append(f.as_str());
                push_char(&mut res, ')');
                proof {
                    assert(res@ =~= close_frames(seq_views(stack@).push(f@)));
                    assert(seq_views(stack@).push(f@) =~= seq![f@]);
                    assert(rem_i.len() == 0);
                }
                return Some(res);
            }
            let c = self.chars[self.pos];
            proof {
                assert(rem_i[0] == c);
                assert(rem_i.drop_first() =~= self.chars@.skip(self.pos as int + 1));
            }
            self.pos = self.pos + 1;
            if c == '(' {
                let mut f = stack.pop().unwrap();
                f.append(seg.as_str());
                stack.push(f);
                stack.push(String::new());
                seg = String::new();
                proof {
                    assert(seq_views(stack@) =~= vs0.update(
                        vs0.len() - 1,
                        vs0.last() + seg0,
                    ).push(Seq::<char>::empty()));
                }
            } else if c == ')' {
                let mut f = stack.pop().unwrap();
                f.append(seg.as_str());
                let mut closed = String::new();
                push_char(&mut closed, '(');
                closed.append(f.as_str());
                push_char(&mut closed, ')');
                if stack.len() == 0 {
                    proof {
                        assert(closed@ =~= seq!['('] + vs0.last() + seg0 + seq![')']);
                    }
                    return Some(closed);
                }
                let mut p = stack.pop().unwrap();
                p.append(closed.as_str());
                stack.push(p);
                seg = String::new();
                proof {
                    assert(closed@ =~= seq!['('] + vs0.last() + seg0 + seq![')']);
                    assert(seq_views(stack@) =~~= vs0.drop_last().update(
                        vs0.len() - 2,
                        vs0[vs0.len() - 2] + (seq!['('] + vs0.last() + seg0 + seq![')']),
                    ));
                }
            } else {
                push_char(&mut seg, c);
                proof {
                    assert(seg@ =~= seg0.push(c));
                }
            }
        }
    }

    /// Parses one comma-separated selector group, stopping before `{`.
    /// Returns `None` on a `;` before the group ends.
    pub fn parse_selectors(&mut self) -> (r: Option<Selectors>)
        requires
            old(self).wf(),
        ensures
            final(self).wf(),
            ({
                match sel_loop(seq![Seq::<char>::empty()], old(self).remaining()) {
                    SelOut::Found(ss, rem2) => {
                        &&& r matches Some(sels)
                        &&& sels.model() == ss
                        &&& final(self).remaining() == rem2
                    },
                    SelOut::Failed(rem2) => r is None && final(self).remaining() == rem2,
                }
            }),
    {
        let mut selectors: Vec<String> = Vec::new();
        selectors.push(String::new());
        proof {
            assert(seq_views(selectors@) =~= seq![Seq::<char>::empty()]);
        }
        loop
            invariant
                self.wf(),
                selectors@.len() >= 1,
                sel_loop(seq![Seq::<char>::empty()], old(self).remaining()) == sel_loop(
                    seq_views(selectors@),
                    self.remaining(),
                ),
            decreases self.remaining().len(),
        {
            let ghost vs0 = seq_views(selectors@);
            let ghost rem_i = self.remaining();
            let delims: [char; 4] = ['(', ',', '{', ';'];
            proof {
                assert(delims@ =~= sel_delims());
                lemma_find_delim_bounds(rem_i, sel_delims(), 0);
            }
            match self.take_until(&delims) {
                None => {
                    proof {
                        assert(self.remaining() =~= Seq::<char>::empty());
                    }
                    return Some(finish_selectors(selectors));
                },
                Some((value, delimiter)) => {
                    if delimiter == '(' {
                        match self.take_paren() {
                            Some(ptext) => {
                                let mut s = selectors.pop().unwrap();
                                s.append(value.as_str());
                                s.append(ptext.as_str());
                                selectors.push(s);
                                proof {
                                    assert(seq_views(selectors@) =~= vs0.update(
                                        vs0.len() - 1,
                                        vs0.last() + value@ + ptext@,
                                    ));
                                    if let Some(j) = find_delim(rem_i, sel_delims(), 0) {
                                        lemma_paren_run_rem(
                                            seq![Seq::<char>::empty()],
                                            Seq::<char>::empty(),
                                            rem_i.skip(j).drop_first(),
                                        );
                                    }
                                }
                            },
                            None => {
                                proof {
                                    assert(false);
                                }
                                return None;
                            },
                        }
                    } else if delimiter == ',' {
                        let mut s = selectors.pop().unwrap();
                        let t = trim_end_str(value.as_str());
                        s.append(t.as_str());
                        selectors.push(s);
                        proof {
                            if let Some(j) = find_delim(rem_i, sel_delims(), 0) {
                                assert(rem_i.skip(j).drop_first() =~= rem_i.skip(j + 1));
                                lemma_skip_spaces_len(rem_i.skip(j + 1));
                            }
                        }
                        match self.take(',') {
                            Some(_) => {},
                            None => {
                                proof {
                                    assert(false);
                                }
                                return None;
                            },
                        }
                        self.skip_white_space();
                        selectors.push(String::new());
                        proof {
                            assert(seq_views(selectors@) =~= vs0.update(
                                vs0.len() - 1,
                                vs0.last() + trim_end_spec(value@),
                            ).push(Seq::<char>::empty()));
                        }
                    } else if delimiter == '{' {
                        let mut s = selectors.pop().unwrap();
                        let t = trim_end_str(value.as_str());
                        s.append(t.as_str());
                        selectors.push(s);
                        proof {
                            assert(seq_views(selectors@) =~= vs0.update(
                                vs0.len() - 1,
                                vs0.last() + trim_end_spec(value@),
                            ));
                        }
                        return Some(finish_selectors(selectors));
                    } else {
                        return None;
                    }
                },
            }
        }
    }

    /// Parses one `property: value` declaration, terminated by `;`
    /// (consumed) or by a following `}` (left in place).
    pub fn parse_property(&mut self) -> (r: Option<Property>)
        requires
            old(self).wf(),
        ensures
            final(self).wf(),
            ({
                match prop_parse(old(self).remaining()) {
                    PropOut::Found(name, value, rem2) => {
                        &&& r matches Some(p)
                        &&& p.property@ == name
                        &&& p.value@ == value
                        &&& final(self).remaining() == rem2
                    },
                    PropOut::Failed(rem2) => r is None && final(self).remaining() == rem2,
                }
            }),
    {
        self.skip_white_space();
        let ghost s1 = self.remaining();
        let delims: [char; 4] = [':', '{', '}', ';'];
        proof {
            assert(delims@ =~= prop_delims());
            lemma_find_delim_bounds(s1, prop_delims(), 0);
        }
        let value = match self.take_until(&delims) {
            Some(p) => p.0,
            None => {
                proof {
                    assert(self.remaining() =~= Seq::<char>::empty());
                }
                return None;
            },
        };
        let property = match self.take(':') {
            Some(_) => trim_end_str(value.as_str()),
            None => {
                return None;
            },
        };
        self.skip_white_space();
        let ghost s2 = self.remaining();
        proof {
            lemma_find_delim_bounds(s2, prop_delims(), 0);
        }
        let value2 = match self.take_until(&delims) {
            Some(p) => p.0,
            None => {
                proof {
                    assert(self.remaining() =~= Seq::<char>::empty());
                }
                return None;
            },
        };
        if self.peek(';') {
            let _ = self.take(';');
            Some(Property { property, value: trim_end_str(value2.as_str()) })
        } else if self.peek('}') {
            Some(Property { property, value: trim_end_str(value2.as_str()) })
        } else {
            None
        }
    }

    /// Parses one at-rule, as [`at_parse`] describes.
    pub fn parse_at_rule(&mut self) -> (r: Result<AtRule, ParseError<AtRule>>)
        requires
            old(self).wf(),
        ensures
            final(self).wf(),
            ({
                match at_parse(old(self).remaining()) {
                    AtOut::Done(a, rem2) => {
                        &&& r matches Ok(ar)
                        &&& at_model(ar) == a
                        &&& final(self).remaining() == rem2
                    },
                    AtOut::Part(a, m, rem2) => {
                        &&& r matches Err(ParseError::Ignorable(ar, msg))
                        &&& at_model(ar) == a
                        &&& msg@ == m
                        &&& final(self).remaining() == rem2
                    },
                    AtOut::Fatal(rem2) => {
                        &&& r matches Err(e)
                        &&& e is Fatal
                        &&& final(self).remaining() == rem2
                    },
                }
            }),
        decreases old(self).remaining().len(), 0int,
    {
        proof {
            lemma_skip_spaces_len(old(self).remaining());
        }
        self.skip_white_space();
        let ghost s1 = self.remaining();
        if self.take('@').is_none() {
            return Err(ParseError::Fatal);
        }
        let ghost s2 = s1.drop_first();
        proof {
            lemma_find_space_bounds(s2, 0);
        }
        let rule_name = match self.take_until_whitespace() {
            Some(n) => n,
            None => {
                proof {
                    assert(self.remaining() =~= Seq::<char>::empty());
                }
                return Err(ParseError::Fatal);
            },
        };
        proof {
            if let Some(j) = find_space(s2, 0) {
                lemma_skip_spaces_len(s2.skip(j));
            }
        }
        self.skip_white_space();
        let ghost s3 = self.remaining();
        let delims: [char; 2] = ['{', ';'];
        proof {
            assert(delims@ =~= at_delims());
            lemma_find_delim_bounds(s3, at_delims(), 0);
        }
        match self.take_until(&delims) {
            None => {
                proof {
                    assert(self.remaining() =~= Seq::<char>::empty());
                }
                Err(ParseError::Fatal)
            },
            Some((value, delimiter)) => {
                let rule_value = trim_end_str(value.as_str());
                proof {
                    if let Some(k) = find_delim(s3, at_delims(), 0) {
                        assert(s3.skip(k).drop_first() =~= s3.skip(k + 1));
                    }
                }
                if delimiter == '{' {
                    match self.take('{') {
                        Some(_) => {},
                        None => {
                            proof {
                                assert(false);
                            }
                            return Err(ParseError::Fatal);
                        },
                    }
                    match self.parse_declaration_list() {
                        Ok(declarations) => {
                            self.skip_white_space();
                            match self.take('}') {
                                Some(_) => Ok(
                                    AtRule {
                                        rule_name,
                                        rule_value,
                                        block: Some(declarations),
                                    },
                                ),
                                None => Err(ParseError::Fatal),
                            }
                        },
                        Err(ParseError::Fatal) => Err(ParseError::Fatal),
                        Err(ParseError::Ignorable(declarations, msg)) => {
                            self.skip_white_space();
                            match self.take('}') {
                                Some(_) => Err(
                                    ParseError::Ignorable(
                                        AtRule {
                                            rule_name,
                                            rule_value,
                                            block: Some(declarations),
                                        },
                                        msg,
                                    ),
                                ),
                                None => Err(ParseError::Fatal),
                            }
                        },
                    }
                } else {
                    match self.take(';') {
                        Some(_) => Ok(AtRule { rule_name, rule_value, block: None }),
                        None => {
                            proof {
                                assert(false);
                            }
                            Err(ParseError::Fatal)
                        },
                    }
                }
            },
        }
    }

    /// Parses one qualified rule, as [`qual_parse`] describes.
    pub fn parse_qualified_rule(&mut self) -> (r: Result<QualifiedRule, ParseError<QualifiedRule>>)
        requires
            old(self).wf(),
        ensures
            final(self).wf(),
            ({
                match qual_parse(old(self).remaining()) {
                    QualOut::Done(q, rem2) => {
                        &&& r matches Ok(qr)
                        &&& qual_model(qr) == q
                        &&& final(self).remaining() == rem2
                    },
                    QualOut::Part(q, m, rem2) => {
                        &&& r matches Err(ParseError::Ignorable(qr, msg))
                        &&& qual_model(qr) == q
                        &&& msg@ == m
                        &&& final(self).remaining() == rem2
                    },
                    QualOut::Fatal(rem2) => {
                        &&& r matches Err(e)
                        &&& e is Fatal
                        &&& final(self).remaining() == rem2
                    },
                }
            }),
        decreases old(self).remaining().len(), 0int,
    {
        proof {
            lemma_skip_spaces_len(old(self).remaining());
        }
        self.skip_white_space();
        let ghost s1 = self.remaining();
        proof {
            lemma_sel_loop_rem(seq![Seq::<char>::empty()], s1);
        }
        let selectors = match self.parse_selectors() {
            Some(sels) => sels,
            None => {
                return Err(ParseError::Fatal);
            },
        };
        let ghost r_sel = self.remaining();
        match self.take('{') {
            Some(_) => {},
            None => {
                return Err(ParseError::Fatal);
            },
        }
        match self.parse_declaration_list() {
            Ok(declarations) => {
                self.skip_white_space();
                match self.take('}') {
                    Some(_) => Ok(QualifiedRule { selectors, block: declarations }),
                    None => Err(ParseError::Fatal),
                }
            },
            Err(ParseError::Fatal) => Err(ParseError::Fatal),
            Err(ParseError::Ignorable(declarations, msg)) => {
                self.skip_white_space();
                match self.take('}') {
                    Some(_) => Err(
                        ParseError::Ignorable(
                            QualifiedRule { selectors, block: declarations },
                            msg,
                        ),
                    ),
                    None => Err(ParseError::Fatal),
                }
            },
        }
    }

    /// Parses a declaration list, as [`list_go`] describes: when a trailing
    /// fragment is malformed, the cleanly parsed prefix is returned together
    /// with the diagnostic, so that callers may still use it.
    pub fn parse_declaration_list(&mut self) -> (r: Result<
        Vec<Declaration>,
        ParseError<Vec<Declaration>>,
    >)
        requires
            old(self).wf(),
        ensures
            final(self).wf(),
            ({
                match list_go(
                    Seq::<DeclM>::empty(),
                    false,
                    Option::None,
                    old(self).remaining(),
                ) {
                    ListOut::Done(ds, rem2) => {
                        &&& r matches Ok(v)
                        &&& decls_model(v@) == ds
                        &&& final(self).remaining() == rem2
                    },
                    ListOut::Part(ds, m, rem2) => {
                        &&& r matches Err(ParseError::Ignorable(v, msg))
                        &&& decls_model(v@) == ds
                        &&& msg@ == m
                        &&& final(self).remaining() == rem2
                    },
                }
            }),
        decreases old(self).remaining().len(), 1int,
    {
        let mut declarations: Vec<Declaration> = Vec::new();
        let mut is_err = false;
        let mut is_nesting = false;
        let mut err_msg = String::new();
        proof {
            assert(decls_model(declarations@) =~= Seq::<DeclM>::empty());
        }
        loop
            invariant
                self.wf(),
                self.remaining().len() <= old(self).remaining().len(),
                list_go(
                    Seq::<DeclM>::empty(),
                    false,
                    Option::None,
                    old(self).remaining(),
                ) == list_go(
                    decls_model(declarations@),
                    is_nesting,
                    if is_err {
                        Option::Some(err_msg@)
                    } else {
                        Option::<Seq<char>>::None
                    },
                    self.remaining(),
                ),
            decreases self.remaining().len(),
        {
            let ghost rem_i = self.remaining();
            proof {
                lemma_skip_spaces_len(rem_i);
            }
            self.skip_white_space();
            let ghost s1 = self.remaining();
            if self.is_empty() || self.peek('}') {
                if is_err {
                    return Err(ParseError::Ignorable(declarations, err_msg));
                } else {
                    return Ok(declarations);
                }
            } else if self.peek('@') {
                proof {
                    lemma_at_parse_rem(s1);
                    lemma_skip_spaces_idem(rem_i);
                }
                match self.parse_at_rule() {
                    Ok(at_rule) => {
                        proof {
                            lemma_decls_model_push(
                                declarations@,
                                Declaration::AtRule(at_rule),
                            );
                        }
                        declarations.push(Declaration::AtRule(at_rule));
                        is_nesting = true;
                    },
                    Err(ParseError::Fatal) => {
                        return Err(
                            ParseError::Ignorable(
                                declarations,
                                String::from_str("[CSS parse error] at-rule parse error"),
                            ),
                        );
                    },
                    Err(ParseError::Ignorable(at_rule, msg)) => {
                        is_err = true;
                        err_msg = msg;
                        proof {
                            lemma_decls_model_push(
                                declarations@,
                                Declaration::AtRule(at_rule),
                            );
                        }
                        declarations.push(Declaration::AtRule(at_rule));
                        is_nesting = true;
                    },
                }
            } else if self.peek('&') {
                proof {
                    lemma_qual_parse_rem(s1);
                    lemma_skip_spaces_idem(rem_i);
                }
                match self.parse_qualified_rule() {
                    Ok(rule) => {
                        proof {
                            lemma_decls_model_push(
                                declarations@,
                                Declaration::QualifiedRule(rule),
                            );
                        }
                        declarations.push(Declaration::QualifiedRule(rule));
                        is_nesting = true;
                    },
                    Err(ParseError::Fatal) => {
                        return Err(
                            ParseError::Ignorable(
                                declarations,
                                String::from_str(
                                    "[CSS parse error] qualified rule parse error",
                                ),
                            ),
                        );
                    },
                    Err(ParseError::Ignorable(rule, msg)) => {
                        is_err = true;
                        err_msg = msg;
                        proof {
                            lemma_decls_model_push(
                                declarations@,
                                Declaration::QualifiedRule(rule),
                            );
                        }
                        declarations.push(Declaration::QualifiedRule(rule));
                        is_nesting = true;
                    },
                }
            } else {
                if is_nesting {
                    return Err(
                        ParseError::Ignorable(
                            declarations,
                            String::from_str(
                                "[CSS parse error] property after nesting is invalid and ignored",
                            ),
                        ),
                    );
                } else {
                    proof {
                        lemma_prop_parse_rem(s1);
                        lemma_skip_spaces_idem(rem_i);
                    }
                    match self.parse_property() {
                        Some(property) => {
                            proof {
                                lemma_decls_model_push(
                                    declarations@,
                                    Declaration::Property(property),
                                );
                            }
                            declarations.push(Declaration::Property(property));
                        },
                        None => {
                            return Err(
                                ParseError::Ignorable(
                                    declarations,
                                    String::from_str(
                                        "[CSS parse error] property declaration is expected",
                                    ),
                                ),
                            );
                        },
                    }
                }
            }
        }
    }

    /// As [`Cursor::take_until`], with any space character as the delimiter.
    pub fn take_until_whitespace(&mut self) -> (r: Option<String>)
        requires
            old(self).wf(),
        ensures
            final(self).wf(),
            ({
                let rem = old(self).remaining();
                match find_space(rem, 0) {
                    Some(j) => {
                        &&& r matches Some(t)
                        &&& t@ == rem.subrange(0, j)
                        &&& final(self).remaining() == rem.skip(j)
                    },
                    None => r is None && final(self).remaining().len() == 0,
                }
            }),
    {
        let ghost orig: Cursor = *self;
        let mut ret = String::new();
        loop
            invariant
                orig == *old(self),
                self.wf(),
                self.chars@ == orig.chars@,
                orig.pos <= self.pos,
                ret@ == orig.remaining().subrange(0, self.pos - orig.pos),
                find_space(orig.remaining(), 0) == find_space(
                    orig.remaining(),
                    self.pos - orig.pos,
                ),
            decreases self.chars@.len() - self.pos,
        {
            if self.pos < self.chars.len() {
                let c = self.chars[self.pos];
                proof {
                    assert(orig.remaining()[self.pos - orig.pos] == c);
                }
                if is_space_char(c) {
                    proof {
                        assert(self.chars@.skip(self.pos as int) =~= orig.remaining().skip(
                            self.pos - orig.pos,
                        ));
                    }
                    return Some(ret);
                } else {
                    push_char(&mut ret, c);
                    proof {
                        assert(ret@ =~= orig.remaining().subrange(0, self.pos + 1 - orig.pos));
                    }
                    self.pos = self.pos + 1;
                }
            } else {
                return None;
            }
        }
    }
}

} // verus!
