use dioxus_cli::{
    lex_fragments, parse_rsx, rsx_to_html, tokenize, AttributeEntry, AttributeSet, Element, ElementEntry,
    LexicalError, Lexer, Node, ParseError, RsxCall, RsxError, Schema, Scope, Token, Value, Values,
};

fn element(name: &str) -> ElementEntry {
    ElementEntry { name: name.to_string(), namespace: None }
}

fn global(name: &str) -> AttributeEntry {
    AttributeEntry {
        name: name.to_string(),
        scope: Scope::Global,
        output_name: name.to_string(),
        namespace: None,
        rename_to: None,
    }
}

fn schema() -> Schema {
    Schema {
        elements: vec![element("div"), element("span"), element("input"), element("svg"), element("p")],
        attributes: vec![
            global("width"),
            global("height"),
            global("color"),
            global("value"),
            global("r#type"),
            global("class"),
            AttributeEntry {
                name: "view_box".to_string(),
                scope: Scope::Specific("svg".to_string()),
                output_name: "view_box".to_string(),
                namespace: None,
                rename_to: Some("viewBox".to_string()),
            },
            AttributeEntry {
                name: "xlink_href".to_string(),
                scope: Scope::Global,
                output_name: "href".to_string(),
                namespace: Some("xlink".to_string()),
                rename_to: None,
            },
        ],
    }
}

fn constant(s: &str) -> Value {
    Value::Constant(s.to_string())
}

fn variable(s: &str) -> Value {
    Value::Variable(s.to_string())
}

fn quoted(fragments: Vec<Value>) -> Values {
    Values("\"".to_string(), fragments, "\"".to_string())
}

#[test]
fn test_parse() {
    let schema = schema();
    let input = r#"div{width: "{x}px"}"#;
    let mut lex = Lexer::new(input, &schema);

    let (start, token, end) = lex.next_token().unwrap().unwrap();
    assert_eq!(token, Token::Element("div".to_string()));
    assert_eq!(&input[start..end], "div{");

    let (start, token, end) = lex.next_token().unwrap().unwrap();
    assert_eq!(token, Token::Attribute("width".to_string()));
    assert_eq!(&input[start..end], "width:");

    let (start, token, end) = lex.next_token().unwrap().unwrap();
    assert_eq!(token, Token::Values(quoted(vec![variable("x"), constant("px")])));
    assert_eq!(&input[start..end], r#""{x}px""#);

    let (start, token, end) = lex.next_token().unwrap().unwrap();
    assert_eq!(token, Token::ClosingBrace);
    assert_eq!(&input[start..end], "}");

    assert!(lex.next_token().is_none());
}

#[test]
fn nested_element_normalized_form() {
    let schema = schema();
    let input = r#"rsx!{div{width: "100px",height: "*{x}px",span{color: "red","hello world"}}}"#;
    let call = parse_rsx(input, &schema).unwrap();
    assert_eq!(
        call.to_normalized(),
        "rsx! {\n\tdiv {\n\t\twidth: \"100px\",\n\t\theight: \"*{x}px\",\n\t\tspan {\n\t\t\tcolor: \"red\",\n\t\t\t\"hello world\"\n\t\t}\n\t}\n}"
    );
    match &call.0[0] {
        Node::Element(div) => {
            assert_eq!(div.tag, "div");
            assert_eq!(div.attributes.len(), 2);
            assert_eq!(div.attributes[0].name, "width");
            assert_eq!(div.attributes[0].value.to_string(), "100px");
            assert_eq!(div.attributes[1].name, "height");
            assert_eq!(div.attributes[1].value.1, vec![constant("*"), variable("x"), constant("px")]);
            assert_eq!(div.children.len(), 1);
        }
        Node::Text(_) => panic!("expected an element"),
    }
}

#[test]
fn raw_attribute_name_and_escaped_braces() {
    let schema = schema();
    let input = r#"rsx!{input{r#type: "text",value: "{{x}}px",}}"#;
    let call = parse_rsx(input, &schema).unwrap();
    match &call.0[0] {
        Node::Element(e) => {
            assert_eq!(e.attributes[0].name, "r#type");
            assert_eq!(e.attributes[1].value.to_string(), "{x}px");
            assert_eq!(e.attributes[1].value.1, vec![constant("{x}px")]);
        }
        Node::Text(_) => panic!("expected an element"),
    }
    assert_eq!(
        call.to_normalized(),
        "rsx! {\n\tinput {\n\t\tr#type: \"text\",\n\t\tvalue: \"{{x}}px\",\n\t}\n}"
    );
}

#[test]
fn unknown_tag_fails_lexing_at_its_offset() {
    let schema = schema();
    assert_eq!(
        parse_rsx("rsx!{foo{}}", &schema),
        Err(RsxError::Lexical(LexicalError::InvalidToken(5)))
    );
    assert_eq!(tokenize("foo{}", &schema), Err(LexicalError::InvalidToken(0)));
}

#[test]
fn lexical_error_offset_counts_bytes() {
    let schema = schema();
    assert_eq!(
        parse_rsx("rsx!{\"é\" foo{}}", &schema),
        Err(RsxError::Lexical(LexicalError::InvalidToken(10)))
    );
}

#[test]
fn unknown_attribute_name_fails_lexing() {
    let schema = schema();
    assert_eq!(
        parse_rsx("rsx!{div{ unknownAttr: \"x\" }}", &schema),
        Err(RsxError::Lexical(LexicalError::InvalidToken(10)))
    );
}

#[test]
fn unresolved_attribute_is_dropped_from_markup() {
    let schema = schema();
    let call = RsxCall(vec![Node::Element(Element {
        tag: "div".to_string(),
        attributes: vec![AttributeSet { name: "unknownAttr".to_string(), value: quoted(vec![constant("x")]) }],
        children: vec![],
    })]);
    assert_eq!(call.to_markup(&schema), "<div></div>");
}

#[test]
fn scoped_attribute_applies_only_to_its_tag() {
    let schema = schema();
    let html = rsx_to_html(r#"rsx!{svg{view_box: "0 0 20 20"}, div{view_box: "1"}}"#, &schema).unwrap();
    assert_eq!(html, "<svg viewBox=\"0 0 20 20\"></svg><div></div>");
    assert_eq!(schema.resolve(&"view_box".to_string(), &"svg".to_string()), Some(6));
    assert_eq!(schema.resolve(&"view_box".to_string(), &"div".to_string()), None);
    assert_eq!(schema.resolve(&"width".to_string(), &"p".to_string()), Some(0));
}

#[test]
fn specific_entry_wins_over_global() {
    let mut schema = schema();
    schema.attributes.push(AttributeEntry {
        name: "class".to_string(),
        scope: Scope::Specific("p".to_string()),
        output_name: "className".to_string(),
        namespace: None,
        rename_to: None,
    });
    let html = rsx_to_html(r#"rsx!{p{class: "a"} div{class: "b"}}"#, &schema).unwrap();
    assert_eq!(html, "<p className=\"a\"></p><div class=\"b\"></div>");
}

#[test]
fn namespaced_attribute_and_escaped_text_in_markup() {
    let schema = schema();
    let html = rsx_to_html(r#"rsx!{div{xlink_href: "a&b", "x < y > 'z'" }}"#, &schema).unwrap();
    assert_eq!(html, "<div xlink:href=\"a&amp;b\">x &lt; y &gt; &#39;z&#39;</div>");
}

#[test]
fn markup_keeps_placeholders_literal() {
    let schema = schema();
    let html = rsx_to_html(r#"rsx!{span{width: "{w}px", "{{a}} {b:?}"}}"#, &schema).unwrap();
    assert_eq!(html, "<span width=\"{w}px\">{a} {b}</span>");
}

#[test]
fn placeholder_format_spec_is_dropped() {
    assert_eq!(lex_fragments("{x}"), vec![variable("x")]);
    assert_eq!(lex_fragments("{x:>8}"), vec![variable("x")]);
    assert_eq!(lex_fragments("a{long_name:#?}b"), vec![constant("a"), variable("long_name"), constant("b")]);
}

#[test]
fn doubled_braces_are_literal_braces() {
    assert_eq!(lex_fragments("{{"), vec![constant("{")]);
    assert_eq!(lex_fragments("}}"), vec![constant("}")]);
    assert_eq!(lex_fragments("a{{b}}c"), vec![constant("a{b}c")]);
    assert_eq!(lex_fragments("{{{x}}}"), vec![constant("{"), variable("x"), constant("}")]);
}

#[test]
fn stray_braces_become_error_fragments() {
    assert_eq!(lex_fragments("a{b"), vec![constant("a"), Value::Error, constant("b")]);
    assert_eq!(lex_fragments("}"), vec![Value::Error]);
    assert_eq!(lex_fragments("{ x}"), vec![Value::Error, constant(" x"), Value::Error]);
    let v = quoted(vec![constant("a"), Value::Error]);
    assert_eq!(v.to_string(), "a!error!");
    assert_eq!(Value::Error.to_string(), "!error!");
    assert_eq!(lex_fragments(""), vec![]);
}

#[test]
fn values_render_and_relex() {
    let v = quoted(vec![constant("*{"), variable("x"), constant("px}")]);
    assert_eq!(v.to_string(), "*{{x}px}");
    assert_eq!(v.to_source(), "*{{{x}px}}");
    assert_eq!(v.to_literal(), "\"*{{{x}px}}\"");
    assert_eq!(lex_fragments(&v.to_source()), v.1);
    assert_eq!(variable("n").to_string(), "{n}");
    assert_eq!(constant("{").to_source(), "{{");
}

#[test]
fn normalized_form_parses_back_to_the_same_tree() {
    let schema = schema();
    let input = r#"rsx!{div{width: "{w:>4}", span{"a{{b}}"}, class: "c",}, "top", p{}}"#;
    let call = parse_rsx(input, &schema).unwrap();
    let again = parse_rsx(&call.to_normalized(), &schema).unwrap();
    assert_eq!(again, call);
    assert_eq!(again.to_normalized(), call.to_normalized());
}

#[test]
fn grammar_errors_report_token_and_span() {
    let schema = schema();
    assert_eq!(
        parse_rsx("rsx!{div{width: }}", &schema),
        Err(RsxError::Parse(ParseError::UnrecognizedToken { token: Token::ClosingBrace, start: 16, end: 17 }))
    );
    assert_eq!(
        parse_rsx("rsx!{div{", &schema),
        Err(RsxError::Parse(ParseError::UnexpectedEof { offset: 9 }))
    );
    assert_eq!(
        parse_rsx("div{}", &schema),
        Err(RsxError::Parse(ParseError::UnrecognizedToken {
            token: Token::Element("div".to_string()),
            start: 0,
            end: 4
        }))
    );
    assert_eq!(
        parse_rsx("rsx!{} ,", &schema),
        Err(RsxError::Parse(ParseError::UnrecognizedToken { token: Token::Comma, start: 7, end: 8 }))
    );
    assert_eq!(parse_rsx("", &schema), Err(RsxError::Parse(ParseError::UnexpectedEof { offset: 0 })));
}

#[test]
fn raw_string_literals_are_not_tokens() {
    let schema = schema();
    assert_eq!(
        parse_rsx(r##"rsx!{div{width: r#"x"#}}"##, &schema),
        Err(RsxError::Lexical(LexicalError::InvalidToken(16)))
    );
}

#[test]
fn empty_call_and_top_level_commas() {
    let schema = schema();
    assert_eq!(parse_rsx("rsx!{}", &schema).unwrap(), RsxCall(vec![]));
    let call = parse_rsx("rsx! { \"a\",, \"b\" , }", &schema).unwrap();
    assert_eq!(call.0.len(), 2);
    assert_eq!(call.to_normalized(), "rsx! {\n\t\"a\"\n\t\"b\"\n}");
}

#[test]
fn token_kinds_and_spans() {
    let schema = schema();
    let toks = tokenize("rsx! { ? # , }", &schema).unwrap();
    let kinds: Vec<Token> = toks.iter().map(|t| t.1.clone()).collect();
    assert_eq!(
        kinds,
        vec![Token::Rsx, Token::OpeningBrace, Token::QuestionMark, Token::Pound, Token::Comma, Token::ClosingBrace]
    );
    let spans: Vec<(usize, usize)> = toks.iter().map(|t| (t.0, t.2)).collect();
    assert_eq!(spans, vec![(0, 4), (5, 6), (7, 8), (9, 10), (11, 12), (13, 14)]);
    let toks = tokenize("div  {", &schema).unwrap();
    assert_eq!(toks, vec![(0, Token::Element("div".to_string()), 6)]);
}

#[test]
fn escaped_quote_stays_inside_literal() {
    let schema = schema();
    let call = parse_rsx(r#"rsx!{"say \"hi\""}"#, &schema).unwrap();
    assert_eq!(call.0[0], Node::Text(quoted(vec![constant(r#"say \"hi\""#)])));
}
