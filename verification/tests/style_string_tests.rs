use nested_css::ast::AtRule;
use nested_css::ast::Declaration;
use nested_css::ast::Property;
use nested_css::ast::QualifiedRule;
use nested_css::ast::Selectors;
use nested_css::transpiler::Rule;
use nested_css::transpiler::TranspiledCss;

#[test]
fn test_to_style_string_1() {
    // .foo { color: blue; }
    // .foo > .bar { color: red; }
    let transpiled_css = TranspiledCss(vec![
        Rule::QualifiedRule(QualifiedRule {
            selectors: Selectors(vec![".foo".into()]),
            block: vec![Declaration::Property(Property {
                property: "color".into(),
                value: "blue".into(),
            })],
        }),
        Rule::QualifiedRule(QualifiedRule {
            selectors: Selectors(vec![".foo > .bar".into()]),
            block: vec![Declaration::Property(Property {
                property: "color".into(),
                value: "red".into(),
            })],
        }),
    ]);

    let transpiled_style = transpiled_css.to_style_string();

    let expected_style = ".foo{color:blue;}.foo > .bar{color:red;}";

    assert_eq!(transpiled_style, expected_style);
}

#[test]
fn test_to_style_string_2() {
    // .foo { color: blue; }
    // .foo.bar { color: red; }
    let transpiled_css = TranspiledCss(vec![
        Rule::QualifiedRule(QualifiedRule {
            selectors: Selectors(vec![".foo".into()]),
            block: vec![Declaration::Property(Property {
                property: "color".into(),
                value: "blue".into(),
            })],
        }),
        Rule::QualifiedRule(QualifiedRule {
            selectors: Selectors(vec![".foo.bar".into()]),
            block: vec![Declaration::Property(Property {
                property: "color".into(),
                value: "red".into(),
            })],
        }),
    ]);

    let transpiled_style = transpiled_css.to_style_string();

    let expected_style = ".foo{color:blue;}.foo.bar{color:red;}";

    assert_eq!(transpiled_style, expected_style);
}

#[test]
fn test_to_style_string_3() {
    // .foo, .bar { color: blue; }
    // :is(.foo, .bar) + .baz,
    // :is(.foo, .bar).qux { color: red; }
    let transpiled_css = TranspiledCss(vec![
        Rule::QualifiedRule(QualifiedRule {
            selectors: Selectors(vec![".foo".into(), ".bar".into()]),
            block: vec![Declaration::Property(Property {
                property: "color".into(),
                value: "blue".into(),
            })],
        }),
        Rule::QualifiedRule(QualifiedRule {
            selectors: Selectors(vec![
                ":is(.foo, .bar) + .baz".into(),
                ":is(.foo, .bar).qux".into(),
            ]),
            block: vec![Declaration::Property(Property {
                property: "color".into(),
                value: "red".into(),
            })],
        }),
    ]);

    let transpiled_style = transpiled_css.to_style_string();

    let expected_style =
        ".foo,.bar{color:blue;}:is(.foo, .bar) + .baz,:is(.foo, .bar).qux{color:red;}";

    assert_eq!(transpiled_style, expected_style);
}

#[test]
fn test_to_style_string_4() {
    // .foo { color: blue; }
    // .foo .bar .foo .baz .foo .qux { color: red; }
    let transpiled_css = TranspiledCss(vec![
        Rule::QualifiedRule(QualifiedRule {
            selectors: Selectors(vec![".foo".into()]),
            block: vec![Declaration::Property(Property {
                property: "color".into(),
                value: "blue".into(),
            })],
        }),
        Rule::QualifiedRule(QualifiedRule {
            selectors: Selectors(vec![".foo .bar .foo .baz .foo .qux".into()]),
            block: vec![Declaration::Property(Property {
                property: "color".into(),
                value: "red".into(),
            })],
        }),
    ]);

    let transpiled_style = transpiled_css.to_style_string();

    let expected_style = ".foo{color:blue;}.foo .bar .foo .baz .foo .qux{color:red;}";

    assert_eq!(transpiled_style, expected_style);
}

#[test]
fn test_to_style_string_5() {
    // .foo {
    //   color: blue;
    //   padding: 2ch;
    // }
    let transpiled_css = TranspiledCss(vec![Rule::QualifiedRule(QualifiedRule {
        selectors: Selectors(vec![".foo".into()]),
        block: vec![
            Declaration::Property(Property {
                property: "color".into(),
                value: "blue".into(),
            }),
            Declaration::Property(Property {
                property: "padding".into(),
                value: "2ch".into(),
            }),
        ],
    })]);

    let transpiled_style = transpiled_css.to_style_string();

    let expected_style = ".foo{color:blue;padding:2ch;}";

    assert_eq!(transpiled_style, expected_style);
}

#[test]
fn test_to_style_string_6() {
    // .foo { color: blue; }
    // .foo.foo { padding: 2ch; }
    let transpiled_css = TranspiledCss(vec![
        Rule::QualifiedRule(QualifiedRule {
            selectors: Selectors(vec![".foo".into()]),
            block: vec![Declaration::Property(Property {
                property: "color".into(),
                value: "blue".into(),
            })],
        }),
        Rule::QualifiedRule(QualifiedRule {
            selectors: Selectors(vec![".foo.foo".into()]),
            block: vec![Declaration::Property(Property {
                property: "padding".into(),
                value: "2ch".into(),
            })],
        }),
    ]);

    let transpiled_style = transpiled_css.to_style_string();

    let expected_style = ".foo{color:blue;}.foo.foo{padding:2ch;}";

    assert_eq!(transpiled_style, expected_style);
}

#[test]
fn test_to_style_string_7() {
    // :is(.error, #404):hover > .baz { color: red; }
    let transpiled_css = TranspiledCss(vec![Rule::QualifiedRule(QualifiedRule {
        selectors: Selectors(vec![":is(.error, #404):hover > .baz".into()]),
        block: vec![Declaration::Property(Property {
            property: "color".into(),
            value: "red".into(),
        })],
    })]);

    let transpiled_style = transpiled_css.to_style_string();

    let expected_style = ":is(.error, #404):hover > .baz{color:red;}";

    assert_eq!(transpiled_style, expected_style);
}

#[test]
fn test_to_style_string_8() {
    // .foo:is(.bar, .foo.baz) { color: red; }
    let transpiled_css = TranspiledCss(vec![Rule::QualifiedRule(QualifiedRule {
        selectors: Selectors(vec![".foo:is(.bar, .foo.baz)".into()]),
        block: vec![Declaration::Property(Property {
            property: "color".into(),
            value: "red".into(),
        })],
    })]);

    let transpiled_style = transpiled_css.to_style_string();

    let expected_style = ".foo:is(.bar, .foo.baz){color:red;}";

    assert_eq!(transpiled_style, expected_style);
}

#[test]
fn test_to_style_string_9() {
    // figure { margin: 0; }
    // figure > figcaption { background: hsl(0 0% 0% / 50%); }
    // figure > figcaption > p { font-size: .9rem; }
    let transpiled_css = TranspiledCss(vec![
        Rule::QualifiedRule(QualifiedRule {
            selectors: Selectors(vec!["figure".into()]),
            block: vec![Declaration::Property(Property {
                property: "margin".into(),
                value: "0".into(),
            })],
        }),
        Rule::QualifiedRule(QualifiedRule {
            selectors: Selectors(vec!["figure > figcaption".into()]),
            block: vec![Declaration::Property(Property {
                property: "background".into(),
                value: "hsl(0 0% 0% / 50%)".into(),
            })],
        }),
        Rule::QualifiedRule(QualifiedRule {
            selectors: Selectors(vec!["figure > figcaption > p".into()]),
            block: vec![Declaration::Property(Property {
                property: "font-size".into(),
                value: ".9rem".into(),
            })],
        }),
    ]);

    let transpiled_style = transpiled_css.to_style_string();

    let expected_style = "figure{margin:0;}figure > figcaption{background:hsl(0 0% 0% / 50%);}figure > figcaption > p{font-size:.9rem;}";

    assert_eq!(transpiled_style, expected_style);
}

#[test]
fn test_to_style_string_10() {
    // .foo { color: red; }
    // .foo > .bar { color: blue; }
    let transpiled_css = TranspiledCss(vec![
        Rule::QualifiedRule(QualifiedRule {
            selectors: Selectors(vec![".foo".into()]),
            block: vec![Declaration::Property(Property {
                property: "color".into(),
                value: "red".into(),
            })],
        }),
        Rule::QualifiedRule(QualifiedRule {
            selectors: Selectors(vec![".foo > .bar".into()]),
            block: vec![Declaration::Property(Property {
                property: "color".into(),
                value: "blue".into(),
            })],
        }),
    ]);

    let transpiled_style = transpiled_css.to_style_string();

    let expected_style = ".foo{color:red;}.foo > .bar{color:blue;}";

    assert_eq!(transpiled_style, expected_style);
}

#[test]
fn test_to_style_string_11() {
    // .foo { color: red; }
    // .parent .foo { color: blue; }
    let transpiled_css = TranspiledCss(vec![
        Rule::QualifiedRule(QualifiedRule {
            selectors: Selectors(vec![".foo".into()]),
            block: vec![Declaration::Property(Property {
                property: "color".into(),
                value: "red".into(),
            })],
        }),
        Rule::QualifiedRule(QualifiedRule {
            selectors: Selectors(vec![".parent .foo".into()]),
            block: vec![Declaration::Property(Property {
                property: "color".into(),
                value: "blue".into(),
            })],
        }),
    ]);

    let transpiled_style = transpiled_css.to_style_string();

    let expected_style = ".foo{color:red;}.parent .foo{color:blue;}";

    assert_eq!(transpiled_style, expected_style);
}

#[test]
fn test_to_style_string_12() {
    // .foo { color: red; }
    // :not(.foo) { color: blue; }
    let transpiled_css = TranspiledCss(vec![
        Rule::QualifiedRule(QualifiedRule {
            selectors: Selectors(vec![".foo".into()]),
            block: vec![Declaration::Property(Property {
                property: "color".into(),
                value: "red".into(),
            })],
        }),
        Rule::QualifiedRule(QualifiedRule {
            selectors: Selectors(vec![":not(.foo)".into()]),
            block: vec![Declaration::Property(Property {
                property: "color".into(),
                value: "blue".into(),
            })],
        }),
    ]);

    let transpiled_style = transpiled_css.to_style_string();

    let expected_style = ".foo{color:red;}:not(.foo){color:blue;}";

    assert_eq!(transpiled_style, expected_style);
}

#[test]
fn test_to_style_string_13() {
    // .foo { color: blue; }
    // .bar .foo { color: red; }
    // .bar .foo.baz { color: green; }
    let transpiled_css = TranspiledCss(vec![
        Rule::QualifiedRule(QualifiedRule {
            selectors: Selectors(vec![".foo".into()]),
            block: vec![Declaration::Property(Property {
                property: "color".into(),
                value: "blue".into(),
            })],
        }),
        Rule::QualifiedRule(QualifiedRule {
            selectors: Selectors(vec![".bar .foo".into()]),
            block: vec![Declaration::Property(Property {
                property: "color".into(),
                value: "red".into(),
            })],
        }),
        Rule::QualifiedRule(QualifiedRule {
            selectors: Selectors(vec![".bar .foo.baz".into()]),
            block: vec![Declaration::Property(Property {
                property: "color".into(),
                value: "green".into(),
            })],
        }),
    ]);

    let transpiled_style = transpiled_css.to_style_string();

    let expected_style = ".foo{color:blue;}.bar .foo{color:red;}.bar .foo.baz{color:green;}";

    assert_eq!(transpiled_style, expected_style);
}

#[test]
fn test_to_style_string_14() {
    // .foo { display: grid; }
    // @media (orientation: landscape) {
    //   .foo {
    //     grid-auto-flow: column;
    //   }
    // }
    let transpiled_css = TranspiledCss(vec![
        Rule::QualifiedRule(QualifiedRule {
            selectors: Selectors(vec![".foo".into()]),
            block: vec![Declaration::Property(Property {
                property: "display".into(),
                value: "grid".into(),
            })],
        }),
        Rule::AtRule(AtRule {
            rule_name: "media".into(),
            rule_value: "(orientation: landscape)".into(),
            block: Some(vec![Declaration::QualifiedRule(QualifiedRule {
                selectors: Selectors(vec![".foo".into()]),
                block: vec![Declaration::Property(Property {
                    property: "grid-auto-flow".into(),
                    value: "column".into(),
                })],
            })]),
        }),
    ]);

    let transpiled_style = transpiled_css.to_style_string();

    let expected_style =
        ".foo{display:grid;}@media (orientation: landscape){.foo{grid-auto-flow:column;}}";

    assert_eq!(transpiled_style, expected_style);
}

#[test]
fn test_to_style_string_15() {
    // .foo { display: grid; }
    // @media (orientation: landscape) {
    //   .foo {
    //     grid-auto-flow: column;
    //   }
    // }
    // @media (orientation: landscape) and (min-width > 1024px) {
    //   .foo {
    //     max-inline-size: 1024px;
    //   }
    // }
    let transpiled_css = TranspiledCss(vec![
        Rule::QualifiedRule(QualifiedRule {
            selectors: Selectors(vec![".foo".into()]),
            block: vec![Declaration::Property(Property {
                property: "display".into(),
                value: "grid".into(),
            })],
        }),
        Rule::AtRule(AtRule {
            rule_name: "media".into(),
            rule_value: "(orientation: landscape)".into(),
            block: Some(vec![Declaration::QualifiedRule(QualifiedRule {
                selectors: Selectors(vec![".foo".into()]),
                block: vec![Declaration::Property(Property {
                    property: "grid-auto-flow".into(),
                    value: "column".into(),
                })],
            })]),
        }),
        Rule::AtRule(AtRule {
            rule_name: "media".into(),
            rule_value: "(orientation: landscape) and (min-width > 1024px)".into(),
            block: Some(vec![Declaration::QualifiedRule(QualifiedRule {
                selectors: Selectors(vec![".foo".into()]),
                block: vec![Declaration::Property(Property {
                    property: "max-inline-size".into(),
                    value: "1024px".into(),
                })],
            })]),
        }),
    ]);

    let transpiled_style = transpiled_css.to_style_string();

    let expected_style =
            ".foo{display:grid;}@media (orientation: landscape){.foo{grid-auto-flow:column;}}@media (orientation: landscape) and (min-width > 1024px){.foo{max-inline-size:1024px;}}";

    assert_eq!(transpiled_style, expected_style);
}
