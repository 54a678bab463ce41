use tsparse::tsquery::basic::ParseError;
use tsparse::tsquery::parser::{
    parse_alternation, parse_anchor, parse_anonymous, parse_basic_node, parse_capture_label,
    parse_directive, parse_directive_argument, parse_directive_name, parse_field, parse_group,
    parse_name, parse_negated_field, parse_node, parse_node_with_capture,
    parse_node_with_quantification, parse_non_capturable_node, parse_one_or_more,
    parse_optional, parse_pattern, parse_wildcard, parse_zero_or_more, DirectiveComponent,
    PatternNode,
};
use tsparse::tsquery::basic::parse_comment;

#[test]
fn parser_comment_test() {
    assert_eq!(parse_comment(";abcdef\n"), Ok(("", ())));
    assert_eq!(parse_comment(";\n"), Ok(("", ())));
    assert_eq!(parse_comment(";a\n;b\n;c\n"), Ok(("", ())));
}

#[test]
fn parse_name_test() {
    assert_eq!(parse_name("abc"), Ok(("", PatternNode::Name("abc"))));
}

#[test]
fn parse_anonymous_test() {
    assert_eq!(parse_anonymous(r#""abc""#), Ok(("", PatternNode::Anonymous("abc"))));
}

#[test]
fn wildcard_test() {
    assert_eq!(parse_wildcard("_"), Ok(("", PatternNode::Wildcard)));
}

#[test]
fn anchor_test() {
    assert_eq!(parse_anchor("."), Ok(("", PatternNode::Anchor)));
}

#[test]
fn alternation_test() {
    let nodes = vec![
        PatternNode::Name("a"),
        PatternNode::Name("b"),
        PatternNode::Name("c"),
    ];

    assert_eq!(parse_alternation("[a b c]"), Ok(("", PatternNode::Alternation(nodes))));
    assert_eq!(
        parse_alternation("[a]"),
        Ok(("", PatternNode::Alternation(vec![PatternNode::Name("a")])))
    );
}

#[test]
fn parse_group_test() {
    let single = PatternNode::Group(vec![PatternNode::Name("a")]);

    assert_eq!(parse_group("(a)"), Ok(("", single)));

    let multiple = PatternNode::Group(vec![
        PatternNode::Name("a"),
        PatternNode::Name("b"),
        PatternNode::Name("c"),
    ]);

    assert_eq!(parse_group("(a b c)"), Ok(("", multiple)));

    let nested = PatternNode::Group(vec![
        PatternNode::Name("a"),
        PatternNode::Group(vec![PatternNode::Name("b")]),
    ]);

    assert_eq!(parse_group("(a (b))"), Ok(("", nested)));
}

#[test]
fn field_test() {
    assert_eq!(
        parse_field("label:name"),
        Ok(("", PatternNode::Field("label", Box::new(PatternNode::Name("name")))))
    );
    assert_eq!(
        parse_field("label: name"),
        Ok(("", PatternNode::Field("label", Box::new(PatternNode::Name("name")))))
    );
}

#[test]
fn negated_field_test() {
    assert_eq!(parse_negated_field("!name"), Ok(("", PatternNode::NegatedField("name"))));
}

#[test]
fn parse_capture_label_test() {
    assert_eq!(parse_capture_label("@name"), Ok(("", "name")));
}

#[test]
fn parse_directive_name_test() {
    assert_eq!(parse_directive_name("#set!"), Ok(("", "set")));
}

#[test]
fn parse_directive_test() {
    let directive_single_capture =
        PatternNode::Directive("set", vec![DirectiveComponent::Capture("thing")]);

    assert_eq!(parse_directive("#set! @thing)"), Ok(("", directive_single_capture)));

    let directive_double_capture = PatternNode::Directive(
        "set",
        vec![
            DirectiveComponent::Capture("thing"),
            DirectiveComponent::Capture("thing"),
        ],
    );

    assert_eq!(parse_directive("#set! @thing @thing)"), Ok(("", directive_double_capture)));
}

#[test]
fn parse_node_with_capture_test() {
    assert_eq!(
        parse_node_with_capture("name @thing"),
        Ok(("", PatternNode::Capture("thing", Box::new(PatternNode::Name("name")))))
    );
}

#[test]
fn parse_zero_or_more_test() {
    assert_eq!(
        parse_zero_or_more("name*"),
        Ok(("", PatternNode::ZeroOrMore(Box::new(PatternNode::Name("name")))))
    );
}

#[test]
fn parse_one_or_more_test() {
    assert_eq!(
        parse_one_or_more("name+"),
        Ok(("", PatternNode::OneOrMore(Box::new(PatternNode::Name("name")))))
    );
}

#[test]
fn parse_optional_test() {
    assert_eq!(
        parse_optional("name?"),
        Ok(("", PatternNode::Optional(Box::new(PatternNode::Name("name")))))
    );
}

#[test]
fn node_with_children() {
    let data = "(binary_expression (number_literal) (number_literal))\n";

    let expected = PatternNode::Group(vec![
        PatternNode::Name("binary_expression"),
        PatternNode::Group(vec![PatternNode::Name("number_literal")]),
        PatternNode::Group(vec![PatternNode::Name("number_literal")]),
    ]);

    assert_eq!(parse_pattern(data), Ok(("", expected)));
}

#[test]
fn end_to_end_without_trailing_newline() {
    let expected = PatternNode::Group(vec![
        PatternNode::Name("binary_expression"),
        PatternNode::Group(vec![PatternNode::Name("number_literal")]),
        PatternNode::Group(vec![PatternNode::Name("number_literal")]),
    ]);
    assert_eq!(
        parse_pattern("(binary_expression (number_literal) (number_literal))"),
        Ok(("", expected))
    );
}

#[test]
fn wildcard_and_anchor_consume_one_character() {
    assert_eq!(parse_wildcard("_x"), Ok(("x", PatternNode::Wildcard)));
    assert_eq!(parse_anchor(".x"), Ok(("x", PatternNode::Anchor)));
    assert_eq!(parse_wildcard("x"), Err(ParseError::Syntax(0)));
    assert_eq!(parse_anchor(""), Err(ParseError::Syntax(0)));
}

#[test]
fn lone_underscore_in_a_pattern_is_the_wildcard() {
    assert_eq!(parse_pattern("_"), Ok(("", PatternNode::Wildcard)));
    assert_eq!(
        parse_pattern("_*"),
        Ok(("", PatternNode::ZeroOrMore(Box::new(PatternNode::Wildcard))))
    );
    assert_eq!(parse_pattern("_foo"), Ok(("", PatternNode::Name("_foo"))));
    assert_eq!(parse_pattern("_-"), Ok(("", PatternNode::Name("_-"))));
    assert_eq!(parse_name("_"), Ok(("", PatternNode::Name("_"))));
}

#[test]
fn quantifiers_through_the_pattern_parser() {
    assert_eq!(
        parse_pattern("name*"),
        Ok(("", PatternNode::ZeroOrMore(Box::new(PatternNode::Name("name")))))
    );
    assert_eq!(
        parse_node_with_quantification("(a)+"),
        Ok((
            "",
            PatternNode::OneOrMore(Box::new(PatternNode::Group(vec![PatternNode::Name("a")])))
        ))
    );
    assert_eq!(
        parse_node_with_quantification("a**"),
        Ok(("*", PatternNode::ZeroOrMore(Box::new(PatternNode::Name("a")))))
    );
    assert_eq!(parse_zero_or_more("name+"), Err(ParseError::Syntax(4)));
}

#[test]
fn capture_binds_looser_than_quantifier() {
    assert_eq!(
        parse_pattern("a?@x"),
        Ok((
            "",
            PatternNode::Capture("x", Box::new(PatternNode::Optional(Box::new(PatternNode::Name("a")))))
        ))
    );
    assert_eq!(parse_node_with_capture("a @1"), Ok(("@1", PatternNode::Name("a"))));
    assert_eq!(
        parse_node_with_capture("a? @x"),
        Ok((" @x", PatternNode::Optional(Box::new(PatternNode::Name("a")))))
    );
}

#[test]
fn anonymous_node_inside_group() {
    assert_eq!(
        parse_pattern(r#"(a "b" _)"#),
        Ok((
            "",
            PatternNode::Group(vec![
                PatternNode::Name("a"),
                PatternNode::Anonymous("b"),
                PatternNode::Wildcard,
            ])
        ))
    );
}

#[test]
fn anchors_and_negated_fields_in_groups() {
    assert_eq!(
        parse_pattern("(a . !f)"),
        Ok((
            "",
            PatternNode::Group(vec![
                PatternNode::Name("a"),
                PatternNode::Anchor,
                PatternNode::NegatedField("f"),
            ])
        ))
    );
    assert_eq!(parse_non_capturable_node("  .  x"), Ok(("x", PatternNode::Anchor)));
    assert_eq!(parse_non_capturable_node("!1"), Err(ParseError::Syntax(1)));
}

#[test]
fn directives_inside_groups() {
    assert_eq!(
        parse_pattern("((a) @x (#set! @x)))"),
        Ok((
            "",
            PatternNode::Group(vec![
                PatternNode::Capture("x", Box::new(PatternNode::Group(vec![PatternNode::Name("a")]))),
                PatternNode::Group(vec![PatternNode::Directive(
                    "set",
                    vec![DirectiveComponent::Capture("x")]
                )]),
            ])
        ))
    );
}

#[test]
fn directive_closes_with_its_own_parenthesis() {
    assert_eq!(parse_group("(#set! @x)"), Err(ParseError::Syntax(10)));
    assert_eq!(
        parse_group("(#set! @x))"),
        Ok((
            "",
            PatternNode::Group(vec![PatternNode::Directive(
                "set",
                vec![DirectiveComponent::Capture("x")]
            )])
        ))
    );
}

#[test]
fn directive_errors() {
    assert_eq!(parse_directive("#set!)"), Ok(("", PatternNode::Directive("set", vec![]))));
    assert_eq!(parse_directive("#set! )"), Err(ParseError::Syntax(6)));
    assert_eq!(parse_directive_name("#!"), Err(ParseError::Syntax(1)));
    assert_eq!(parse_directive_name("#set"), Err(ParseError::Syntax(4)));
    assert_eq!(
        parse_directive_argument("  @x  y"),
        Ok(("y", DirectiveComponent::Capture("x")))
    );
}

#[test]
fn comments_around_nodes() {
    assert_eq!(
        parse_pattern(";lead\n(a ;inner\n b)\n;trail\n"),
        Ok((
            "",
            PatternNode::Group(vec![PatternNode::Name("a"), PatternNode::Name("b")])
        ))
    );
    assert_eq!(parse_node("a ;ends with the input"), Ok(("", PatternNode::Name("a"))));
    assert_eq!(parse_pattern("a ;c"), Ok(("", PatternNode::Name("a"))));
    assert_eq!(
        parse_pattern("( ;c\n a)"),
        Ok(("", PatternNode::Group(vec![PatternNode::Name("a")])))
    );
}

#[test]
fn group_errors() {
    assert_eq!(parse_group("(a b"), Err(ParseError::Syntax(4)));
    assert_eq!(parse_group("a"), Err(ParseError::Syntax(0)));
    assert_eq!(parse_pattern(")"), Err(ParseError::Syntax(0)));
    assert_eq!(parse_alternation("[a"), Err(ParseError::Syntax(2)));
}

#[test]
fn field_errors() {
    assert_eq!(parse_field("label :name"), Err(ParseError::Syntax(5)));
    assert_eq!(
        parse_field("f: (a)"),
        Ok(("", PatternNode::Field("f", Box::new(PatternNode::Group(vec![PatternNode::Name("a")])))))
    );
}

#[test]
fn basic_node_skips_whitespace() {
    assert_eq!(parse_basic_node("  name  x"), Ok(("x", PatternNode::Name("name"))));
    assert_eq!(parse_basic_node(r#"  "ab  "#), Err(ParseError::Syntax(5)));
    assert_eq!(parse_pattern(r#""ab"#), Err(ParseError::Syntax(3)));
}

#[test]
fn whitespace_after_open_ended_nodes() {
    assert_eq!(
        parse_pattern("(a@x )"),
        Ok((
            "",
            PatternNode::Group(vec![PatternNode::Capture("x", Box::new(PatternNode::Name("a")))])
        ))
    );
    assert_eq!(
        parse_pattern("(a* )"),
        Ok((
            "",
            PatternNode::Group(vec![PatternNode::ZeroOrMore(Box::new(PatternNode::Name("a")))])
        ))
    );
    assert_eq!(parse_pattern("a@x  ;c\n  "), Ok(("", PatternNode::Capture("x", Box::new(PatternNode::Name("a"))))));
}

#[test]
fn errors_report_the_furthest_position() {
    assert_eq!(parse_pattern("(a b"), Err(ParseError::Syntax(4)));
    assert_eq!(parse_pattern("(a (b c"), Err(ParseError::Syntax(7)));
    assert_eq!(parse_pattern("(a !1)"), Err(ParseError::Syntax(4)));
}

#[test]
fn clone_keeps_the_tree() {
    let node = PatternNode::Group(vec![
        PatternNode::Capture("x", Box::new(PatternNode::Name("a"))),
        PatternNode::Directive("set", vec![DirectiveComponent::Capture("x")]),
    ]);
    assert_eq!(node.clone(), node);
    let arg = DirectiveComponent::String("s");
    assert_eq!(arg.clone(), arg);
}

#[test]
fn group_of_names_keeps_order_and_leaves_the_tail() {
    assert_eq!(
        parse_group("(a b-c _d)tail"),
        Ok((
            "tail",
            PatternNode::Group(vec![
                PatternNode::Name("a"),
                PatternNode::Name("b-c"),
                PatternNode::Name("_d"),
            ])
        ))
    );
    assert_eq!(parse_group("() x"), Ok((" x", PatternNode::Group(vec![]))));
}
