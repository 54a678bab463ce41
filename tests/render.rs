use tsparse::tsquery::parser::{parse_pattern, DirectiveComponent, PatternNode};
use tsparse::tsquery::render::render_pattern;

#[test]
fn render_writes_query_text() {
    let node = PatternNode::Group(vec![
        PatternNode::Name("a"),
        PatternNode::Capture("x", Box::new(PatternNode::ZeroOrMore(Box::new(PatternNode::Name("b"))))),
        PatternNode::Anchor,
        PatternNode::NegatedField("f"),
        PatternNode::Anonymous("lit"),
        PatternNode::Directive("set", vec![DirectiveComponent::Capture("x")]),
    ]);
    assert_eq!(render_pattern(&node), "(a b*@x . !f \"lit\"#set! @x))");
}

#[test]
fn render_of_leaves_and_lists() {
    assert_eq!(render_pattern(&PatternNode::Wildcard), "_");
    assert_eq!(
        render_pattern(&PatternNode::Field("f", Box::new(PatternNode::Name("n")))),
        "f:n"
    );
    assert_eq!(
        render_pattern(&PatternNode::Alternation(vec![
            PatternNode::Name("a"),
            PatternNode::Optional(Box::new(PatternNode::Name("b"))),
        ])),
        "[a b?]"
    );
    assert_eq!(render_pattern(&PatternNode::Group(vec![])), "()");
    assert_eq!(
        render_pattern(&PatternNode::ZeroOrMore(Box::new(PatternNode::Wildcard))),
        "_*"
    );
}

#[test]
fn rendered_patterns_parse_back() {
    let sources = [
        "(binary_expression (number_literal) (number_literal))",
        "((a) @x (#set! @x @y)))",
        "(a . !f \"b\" (c)+ d?@e _*)",
        ";c\n(a ;d\n b)\n",
        "name @thing",
        "_",
        "(_ _* _x)",
    ];
    for source in sources.iter() {
        let (rest, node) = parse_pattern(source).unwrap();
        assert_eq!(rest, "");
        let text = render_pattern(&node);
        assert_eq!(parse_pattern(&text), Ok(("", node)));
    }
}
