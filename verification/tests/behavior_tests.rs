use nested_css::ast::Declaration;
use nested_css::ast::RuntimeCss;
use nested_css::cursor::Cursor;
use nested_css::keyframes::RegisteredAnimationName;
use nested_css::keyframes::replace_animation_name;
use nested_css::scan::Cursor as ScanCursor;
use nested_css::transpiler::Rule;
use nested_css::transpiler::TranspiledCss;

#[test]
fn flat_properties_become_one_rule() {
    // An input of bare properties flattens to exactly one rule that keeps
    // the root selectors and the property order.
    let css = RuntimeCss::parse("color: blue; padding: 2ch;").expect("parse");
    let transpiled = TranspiledCss::transpile(&[".foo"], css);
    assert_eq!(transpiled.0.len(), 1);
    if let Rule::QualifiedRule(rule) = &transpiled.0[0] {
        assert_eq!(rule.selectors.0, vec![".foo".to_string()]);
        assert_eq!(rule.block.len(), 2);
    } else {
        panic!("expected a qualified rule");
    }
    assert_eq!(transpiled.to_style_string(), ".foo{color:blue;padding:2ch;}");
}

#[test]
fn parent_substitution_single_and_multiple() {
    let css = RuntimeCss::parse("& > .bar { color: red; }").expect("parse");
    let transpiled = TranspiledCss::transpile(&[".foo"], css);
    assert_eq!(transpiled.to_style_string(), ".foo > .bar{color:red;}");

    let css = RuntimeCss::parse("& + .baz { color: red; }").expect("parse");
    let transpiled = TranspiledCss::transpile(&[".foo", ".bar"], css);
    assert_eq!(transpiled.to_style_string(), ":is(.foo, .bar) + .baz{color:red;}");
}

#[test]
fn bare_and_doubled_parent_reference() {
    let css = RuntimeCss::parse("& { padding: 2ch; }").expect("parse");
    let transpiled = TranspiledCss::transpile(&[".foo"], css);
    assert_eq!(transpiled.to_style_string(), ".foo{padding:2ch;}");

    let css = RuntimeCss::parse("&& { padding: 2ch; }").expect("parse");
    let transpiled = TranspiledCss::transpile(&[".foo"], css);
    assert_eq!(transpiled.to_style_string(), ".foo.foo{padding:2ch;}");
}

#[test]
fn sibling_media_blocks_merge() {
    // Two sibling @media (A) blocks, each holding @media (B), merge into a
    // single @media (A) and (B) rule with both inner rules in order.
    let css = RuntimeCss::parse(
        "@media (A) { @media (B) { color: red; } } \
         @media (A) { @media (B) { color: blue; } }",
    )
    .expect("parse");
    let transpiled = TranspiledCss::transpile(&[".foo"], css);
    assert_eq!(transpiled.0.len(), 1);
    assert_eq!(
        transpiled.to_style_string(),
        "@media (A) and (B){.foo{color:red;}.foo{color:blue;}}"
    );
}

#[test]
fn triple_media_nesting_merges_left_to_right() {
    let css = RuntimeCss::parse("@media (A) { @media (B) { @media (C) { color: red; } } }")
        .expect("parse");
    let transpiled = TranspiledCss::transpile(&[".foo"], css);
    assert_eq!(
        transpiled.to_style_string(),
        "@media ((A) and (B)) and (C){.foo{color:red;}}"
    );
}

#[test]
fn media_value_strip_removes_one_outer_pair_only() {
    // Merging strips exactly the single outer parenthesis pair of each
    // value, when the whole value is one parenthesised group.
    let css = RuntimeCss::parse("@media ((A)) { @media (B) { color: red; } }").expect("parse");
    let transpiled = TranspiledCss::transpile(&[".foo"], css);
    assert_eq!(
        transpiled.to_style_string(),
        "@media ((A)) and (B){.foo{color:red;}}"
    );
}

#[test]
fn serialization_is_deterministic() {
    let a = TranspiledCss::transpile(
        &[".foo"],
        RuntimeCss::parse("color: blue; & > .bar { color: red; }").expect("parse"),
    );
    let b = TranspiledCss::transpile(
        &[".foo"],
        RuntimeCss::parse("color: blue; & > .bar { color: red; }").expect("parse"),
    );
    assert_eq!(a.to_style_string(), b.to_style_string());
}

#[test]
fn rules_with_equal_selectors_merge_in_order() {
    // Two separately-appearing nested rules with the same post-substitution
    // selector group become one rule; their blocks concatenate in order.
    let css = RuntimeCss::parse("&.x { color: red; } &.x { padding: 2ch; }").expect("parse");
    let transpiled = TranspiledCss::transpile(&[".foo"], css);
    assert_eq!(transpiled.0.len(), 1);
    assert_eq!(transpiled.to_style_string(), ".foo.x{color:red;padding:2ch;}");
}

#[test]
fn nested_scenario_serializes_exactly() {
    let css = RuntimeCss::parse("color: blue; & > .bar { color: red; }").expect("parse");
    let transpiled = TranspiledCss::transpile(&[".foo"], css);
    assert_eq!(transpiled.to_style_string(), ".foo{color:blue;}.foo > .bar{color:red;}");
}

#[test]
fn nested_media_scenario_gives_three_rules() {
    let css = RuntimeCss::parse(
        "display: grid; @media (orientation: landscape) { grid-auto-flow: column; \
         @media (min-width > 1024px) { max-inline-size: 1024px; } }",
    )
    .expect("parse");
    let transpiled = TranspiledCss::transpile(&[".foo"], css);
    assert_eq!(transpiled.0.len(), 3);
    assert_eq!(
        transpiled.to_style_string(),
        ".foo{display:grid;}@media (orientation: landscape){.foo{grid-auto-flow:column;}}\
         @media (orientation: landscape) and (min-width > 1024px){.foo{max-inline-size:1024px;}}"
    );
}

#[test]
fn missing_colon_reports_property_error() {
    let (partial, msg) =
        RuntimeCss::parse("border solid 1px black;").expect_err("expected parse error");
    assert_eq!(partial.0.len(), 0);
    assert_eq!(msg, "[CSS parse error] property declaration is expected");
}

#[test]
fn truncated_at_rule_reports_at_rule_error() {
    let (partial, msg) = RuntimeCss::parse("@").expect_err("expected parse error");
    assert_eq!(partial.0.len(), 0);
    assert_eq!(msg, "[CSS parse error] at-rule parse error");
}

#[test]
fn selector_hitting_semicolon_reports_qualified_rule_error() {
    let (partial, msg) = RuntimeCss::parse("&;").expect_err("expected parse error");
    assert_eq!(partial.0.len(), 0);
    assert_eq!(msg, "[CSS parse error] qualified rule parse error");
}

#[test]
fn property_after_nesting_is_rejected() {
    let (partial, msg) =
        RuntimeCss::parse("& .x { color: red; } padding: 1px;").expect_err("expected parse error");
    assert_eq!(partial.0.len(), 1);
    assert_eq!(msg, "[CSS parse error] property after nesting is invalid and ignored");
}

#[test]
fn empty_input_parses_to_nothing() {
    let css = RuntimeCss::parse("").expect("parse");
    assert_eq!(css.0.len(), 0);
    let css = RuntimeCss::parse("   \n\t  ").expect("parse");
    assert_eq!(css.0.len(), 0);
}

#[test]
fn statement_at_rule_parses_and_is_dropped_by_transpile() {
    let css = RuntimeCss::parse("@import url;").expect("parse");
    assert_eq!(css.0.len(), 1);
    if let Declaration::AtRule(at_rule) = &css.0[0] {
        assert_eq!(at_rule.rule_name, "import");
        assert_eq!(at_rule.rule_value, "url");
        assert!(at_rule.block.is_none());
    } else {
        panic!("expected an at-rule");
    }
    let transpiled = TranspiledCss::transpile(&[".foo"], css);
    assert_eq!(transpiled.0.len(), 0);
    assert_eq!(transpiled.to_style_string(), "");
}

#[test]
fn nest_at_rule_rewrites_the_selector_context() {
    let css = RuntimeCss::parse("@nest .parent & { color: blue; }").expect("parse");
    let transpiled = TranspiledCss::transpile(&[".foo"], css);
    assert_eq!(transpiled.to_style_string(), ".parent .foo{color:blue;}");
}

#[test]
fn cursor_take_until_stops_before_delimiter() {
    let mut cursor = Cursor::new("abc:def");
    let (text, delim) = cursor.take_until(&[':', ';']).expect("delimiter");
    assert_eq!(text, "abc");
    assert_eq!(delim, ':');
    // The delimiter is not consumed.
    assert!(cursor.peek(':'));
    // Exhaustion without a delimiter consumes everything and yields None.
    assert!(cursor.take_until(&['!']).is_none());
    assert!(cursor.is_empty());
}

#[test]
fn cursor_take_consumes_only_on_match() {
    let mut cursor = Cursor::new("ab");
    // A mismatch returns None and leaves the position unchanged.
    assert_eq!(cursor.take('x'), None);
    assert_eq!(cursor.take('a'), Some('a'));
    assert_eq!(cursor.take('b'), Some('b'));
    assert!(cursor.is_empty());
    assert_eq!(cursor.take('b'), None);
}

#[test]
fn cursor_take_paren_returns_span_verbatim() {
    let mut cursor = Cursor::new("(.bar, &.baz) rest");
    assert_eq!(cursor.take_paren().expect("paren"), "(.bar, &.baz)");
    let mut cursor = Cursor::new("x");
    assert_eq!(cursor.take_paren(), None);
    // Nested groups are reproduced exactly as they stand in the input.
    let mut cursor = Cursor::new("(a(b)c)");
    assert_eq!(cursor.take_paren().expect("paren"), "(a(b)c)");
    let mut cursor = Cursor::new(":is(.a, (.b))");
    let _ = cursor.take_until(&['(']);
    assert_eq!(cursor.take_paren().expect("paren"), "(.a, (.b))");
}

#[test]
fn cursor_selector_with_parenthesized_comma_does_not_split() {
    let css = RuntimeCss::parse("&:is(.bar, &.baz) { color: red; }").expect("parse");
    let transpiled = TranspiledCss::transpile(&[".foo"], css);
    assert_eq!(transpiled.to_style_string(), ".foo:is(.bar, .foo.baz){color:red;}");
}

#[test]
fn scan_cursor_take_brace_keeps_text() {
    let mut cursor = ScanCursor::new("{a{b}c} rest");
    assert_eq!(cursor.take_brace().expect("brace"), "a{b}c");
    let mut cursor = ScanCursor::new("x");
    assert_eq!(cursor.take_brace(), None);
}

#[test]
fn scan_cursor_take_until_reports_consumed_text_on_exhaustion() {
    let mut cursor = ScanCursor::new("abc");
    assert_eq!(cursor.take_until(&[':']), Err("abc".to_string()));
    let mut cursor = ScanCursor::new("ab:c");
    assert_eq!(cursor.take_until(&[':']), Ok(("ab".to_string(), ':')));
    assert_eq!(cursor.next(), Some(':'));
    assert_eq!(cursor.next(), Some('c'));
    assert_eq!(cursor.next(), None);
}

#[test]
fn cursor_skip_white_space_and_whitespace_scan() {
    let mut cursor = Cursor::new("  \t\n foo bar");
    cursor.skip_white_space();
    assert_eq!(cursor.take_until_whitespace().expect("word"), "foo");
    cursor.skip_white_space();
    // Exhaustion before a space consumes everything and yields None.
    assert_eq!(cursor.take_until_whitespace(), None);
    assert!(cursor.is_empty());
}

#[test]
fn cursor_take_paren_swallows_unbalanced_tail() {
    // When the input ends inside the parentheses, the scan closes the open
    // groups itself and discards the unfinished trailing segment.
    let mut cursor = Cursor::new("(abc");
    assert_eq!(cursor.take_paren().expect("paren"), "()");
    assert!(cursor.is_empty());
}

#[test]
fn parse_at_rule_statement_and_block_forms() {
    let mut cursor = Cursor::new("@import url;");
    let at_rule = cursor.parse_at_rule().ok().expect("at-rule");
    assert_eq!(at_rule.rule_name, "import");
    assert_eq!(at_rule.rule_value, "url");
    assert!(at_rule.block.is_none());

    let mut cursor = Cursor::new("@media (A) { color: red; }");
    let at_rule = cursor.parse_at_rule().ok().expect("at-rule");
    assert_eq!(at_rule.rule_name, "media");
    assert_eq!(at_rule.rule_value, "(A)");
    assert_eq!(at_rule.block.expect("block").len(), 1);
}

#[test]
fn parse_selectors_splits_on_top_level_commas_only() {
    let mut cursor = Cursor::new("& .a, &:is(.b, .c) {");
    let selectors = cursor.parse_selectors().expect("selectors");
    assert_eq!(selectors.0, vec!["& .a".to_string(), "&:is(.b, .c)".to_string()]);

    let mut cursor = Cursor::new("& .a; {");
    assert!(cursor.parse_selectors().is_none());
}

#[test]
fn parse_property_requires_colon_and_terminator() {
    let mut cursor = Cursor::new("color: red; rest");
    let property = cursor.parse_property().expect("property");
    assert_eq!(property.property, "color");
    assert_eq!(property.value, "red");

    let mut cursor = Cursor::new("color red;");
    assert!(cursor.parse_property().is_none());
}

#[test]
fn parse_declaration_list_keeps_clean_prefix() {
    let mut cursor = Cursor::new("color: red; border solid;");
    match cursor.parse_declaration_list() {
        Err(nested_css::cursor::ParseError::Ignorable(declarations, msg)) => {
            assert_eq!(declarations.len(), 1);
            assert_eq!(msg, "[CSS parse error] property declaration is expected");
        },
        _ => panic!("expected an ignorable parse error"),
    }
}

#[test]
fn scan_cursor_skip_and_word_scan() {
    let mut cursor = ScanCursor::new("  keyframes anim");
    cursor.skip_white_space();
    assert_eq!(cursor.take_until_whitespace().expect("word"), "keyframes");
    cursor.skip_white_space();
    assert!(cursor.peek('a'));
    assert_eq!(cursor.take('a'), Some('a'));
    assert_eq!(cursor.take('x'), None);
    assert!(!cursor.is_empty());
}

#[test]
fn animation_name_tokens_are_replaced() {
    let names = vec![RegisteredAnimationName {
        animation_name: "anim".to_string(),
        animation_name_with_scoped_id: "anim-AbCdEfGh".to_string(),
    }];
    let out = replace_animation_name("animation: ##anim## 1s;".to_string(), &names)
        .expect("rewrite");
    assert_eq!(out, "animation: anim-AbCdEfGh 1s;");
}

#[test]
fn lone_hash_passes_through() {
    let names = vec![];
    let out = replace_animation_name("color: #404;".to_string(), &names).expect("rewrite");
    assert_eq!(out, "color: #404;");
}

#[test]
fn unknown_animation_name_is_an_error() {
    let names = vec![RegisteredAnimationName {
        animation_name: "anim".to_string(),
        animation_name_with_scoped_id: "anim-AbCdEfGh".to_string(),
    }];
    let err = replace_animation_name("animation: ##other## 1s;".to_string(), &names)
        .expect_err("unknown name");
    assert_eq!(
        err,
        "animation name is not defined in `keyframe!` declaration: `##other##`"
    );
}

#[test]
fn unterminated_animation_token_is_an_error() {
    let names = vec![];
    let err = replace_animation_name("##anim".to_string(), &names).expect_err("unterminated");
    assert_eq!(err, "`##<animation_name>##` is expected");
}
