use vstd::prelude::*;
use crate::tsquery::basic::{
    in_class_exec, trivia_at, consumed, skip_trivia, lemma_trivia_len, lemma_trivia_after_ws, is_alnum, identifier_at, in_class, is_ident_start, lemma_suffix_end,
    lemma_identifier_then, lemma_identifier_whole, lemma_skip_class_prefix, lemma_suffix_step, scan, skip_class, skip_ws, spec_comment, spec_identifier, spec_string,
    starts_with, string_at, suffix_from, text_agrees, text_parsed, CharClass, ParseError, Parsed,
    Source,
};

verus! {

/// An argument of a directive.
#[derive(Debug, PartialEq, Clone)]
pub enum DirectiveComponent<'a> {
    Capture(&'a str),
    String(&'a str),
}

/// A node of a parsed query pattern.
#[derive(Debug, PartialEq)]
pub enum PatternNode<'a> {
    Name(&'a str),
    Anonymous(&'a str),
    Wildcard,
    Anchor,
    Field(&'a str, Box<PatternNode<'a>>),
    NegatedField(&'a str),
    Directive(&'a str, Vec<DirectiveComponent<'a>>),
    Capture(&'a str, Box<PatternNode<'a>>),
    ZeroOrMore(Box<PatternNode<'a>>),
    OneOrMore(Box<PatternNode<'a>>),
    Optional(Box<PatternNode<'a>>),
    Group(Vec<PatternNode<'a>>),
    Alternation(Vec<PatternNode<'a>>),
}

/// The mathematical model of a directive argument.
pub enum ComponentView {
    Capture(Seq<char>),
    Str(Seq<char>),
}

/// The mathematical model of a pattern node: text payloads as character sequences.
pub enum NodeView {
    Name(Seq<char>),
    Anonymous(Seq<char>),
    Wildcard,
    Anchor,
    Field(Seq<char>, Box<NodeView>),
    NegatedField(Seq<char>),
    Directive(Seq<char>, Seq<ComponentView>),
    Capture(Seq<char>, Box<NodeView>),
    ZeroOrMore(Box<NodeView>),
    OneOrMore(Box<NodeView>),
    Optional(Box<NodeView>),
    Group(Seq<NodeView>),
    Alternation(Seq<NodeView>),
}

impl<'a> DirectiveComponent<'a> {
    pub open spec fn view(&self) -> ComponentView {
        match *self {
            DirectiveComponent::Capture(s) => ComponentView::Capture(s@),
            DirectiveComponent::String(s) => ComponentView::Str(s@),
        }
    }
}

/// The models of a sequence of directive arguments.
pub open spec fn component_views<'a>(s: Seq<DirectiveComponent<'a>>) -> Seq<ComponentView> {
    Seq::new(s.len(), |i: int| s[i].view())
}

/// The models of a sequence of nodes, in order.
pub open spec fn node_views<'a>(s: Seq<PatternNode<'a>>) -> Seq<NodeView>
    decreases s, 0nat,
{
    if s.len() == 0 {
        Seq::empty()
    } else {
        node_views(s.drop_last()).push(s.last().view())
    }
}

impl<'a> PatternNode<'a> {
    pub open spec fn view(&self) -> NodeView
        decreases *self, 1nat,
    {
        match *self {
            PatternNode::Name(s) => NodeView::Name(s@),
            PatternNode::Anonymous(s) => NodeView::Anonymous(s@),
            PatternNode::Wildcard => NodeView::Wildcard,
            PatternNode::Anchor => NodeView::Anchor,
            PatternNode::Field(s, c) => NodeView::Field(s@, Box::new(c.view())),
            PatternNode::NegatedField(s) => NodeView::NegatedField(s@),
            PatternNode::Directive(s, a) => NodeView::Directive(s@, component_views(a@)),
            PatternNode::Capture(s, c) => NodeView::Capture(s@, Box::new(c.view())),
            PatternNode::ZeroOrMore(c) => NodeView::ZeroOrMore(Box::new(c.view())),
            PatternNode::OneOrMore(c) => NodeView::OneOrMore(Box::new(c.view())),
            PatternNode::Optional(c) => NodeView::Optional(Box::new(c.view())),
            PatternNode::Group(v) => NodeView::Group(node_views(v@)),
            PatternNode::Alternation(v) => NodeView::Alternation(node_views(v@)),
        }
    }
}

/// `o` with `v` put in front of the values it read.
pub open spec fn prepend<V>(v: V, o: Parsed<Seq<V>>) -> Parsed<Seq<V>> {
    match o {
        Parsed::Done(r, vs) => Parsed::Done(r, seq![v] + vs),
        Parsed::Fail(r) => Parsed::Fail(r),
    }
}

/// `o` with `vs` put in front of the values it read.
pub open spec fn prepend_all<V>(vs: Seq<V>, o: Parsed<Seq<V>>) -> Parsed<Seq<V>> {
    match o {
        Parsed::Done(r, ws) => Parsed::Done(r, vs + ws),
        Parsed::Fail(r) => Parsed::Fail(r),
    }
}

/// `o`, with the whitespace after a success skipped.
pub open spec fn then_ws<V>(o: Parsed<V>) -> Parsed<V> {
    match o {
        Parsed::Done(r, v) => Parsed::Done(skip_ws(r), v),
        Parsed::Fail(r) => Parsed::Fail(r),
    }
}

/// `o`, with the whitespace and comment lines after a success skipped.
pub open spec fn then_trivia<V>(o: Parsed<V>) -> Parsed<V> {
    match o {
        Parsed::Done(r, v) => Parsed::Done(skip_trivia(r), v),
        Parsed::Fail(r) => Parsed::Fail(r),
    }
}

/// The first of two outcomes that succeeded; when both failed, the failure
/// that got further into the input (the second on a tie).
pub open spec fn first_or_furthest<V>(a: Parsed<V>, b: Parsed<V>) -> Parsed<V> {
    match a {
        Parsed::Done(_, _) => a,
        Parsed::Fail(ra) => match b {
            Parsed::Fail(rb) => if ra.len() < rb.len() {
                a
            } else {
                b
            },
            _ => b,
        },
    }
}

/// `name`: an identifier.
pub open spec fn spec_name(t: Seq<char>) -> Parsed<NodeView> {
    match spec_identifier(t) {
        Parsed::Done(r, x) => Parsed::Done(r, NodeView::Name(x)),
        Parsed::Fail(r) => Parsed::Fail(r),
    }
}

/// `anonymous`: a quoted literal.
pub open spec fn spec_anonymous(t: Seq<char>) -> Parsed<NodeView> {
    match spec_string(t) {
        Parsed::Done(r, x) => Parsed::Done(r, NodeView::Anonymous(x)),
        Parsed::Fail(r) => Parsed::Fail(r),
    }
}

/// `wildcard`: `_`.
pub open spec fn spec_wildcard(t: Seq<char>) -> Parsed<NodeView> {
    if starts_with(t, '_') {
        Parsed::Done(t.drop_first(), NodeView::Wildcard)
    } else {
        Parsed::Fail(t)
    }
}

/// `anchor`: `.`.
pub open spec fn spec_anchor(t: Seq<char>) -> Parsed<NodeView> {
    if starts_with(t, '.') {
        Parsed::Done(t.drop_first(), NodeView::Anchor)
    } else {
        Parsed::Fail(t)
    }
}

/// `negated-field`: `!` then an identifier.
pub open spec fn spec_negated_field(t: Seq<char>) -> Parsed<NodeView> {
    if starts_with(t, '!') {
        match spec_identifier(t.drop_first()) {
            Parsed::Done(r, x) => Parsed::Done(r, NodeView::NegatedField(x)),
            Parsed::Fail(r) => Parsed::Fail(r),
        }
    } else {
        Parsed::Fail(t)
    }
}

/// An anchor or a negated field, with whitespace around it.
pub open spec fn spec_non_capturable(t: Seq<char>) -> Parsed<NodeView> {
    let u = skip_ws(t);
    if starts_with(u, '.') {
        then_ws(spec_anchor(u))
    } else {
        then_ws(spec_negated_field(u))
    }
}

/// A capture label: `@` then an identifier.
pub open spec fn spec_capture_label(t: Seq<char>) -> Parsed<Seq<char>> {
    if starts_with(t, '@') {
        spec_identifier(t.drop_first())
    } else {
        Parsed::Fail(t)
    }
}

/// A directive's name: `#`, one or more ASCII letters, `!`.
pub open spec fn spec_directive_name(t: Seq<char>) -> Parsed<Seq<char>> {
    if starts_with(t, '#') {
        let body = t.drop_first();
        let r = skip_class(body, CharClass::Alpha);
        if r.len() == body.len() {
            Parsed::Fail(r)
        } else if starts_with(r, '!') {
            Parsed::Done(r.drop_first(), consumed(body, r))
        } else {
            Parsed::Fail(r)
        }
    } else {
        Parsed::Fail(t)
    }
}

/// A directive's argument: a capture label with whitespace around it.
pub open spec fn spec_directive_argument(t: Seq<char>) -> Parsed<ComponentView> {
    match spec_capture_label(skip_ws(t)) {
        Parsed::Done(r, l) => Parsed::Done(skip_ws(r), ComponentView::Capture(l)),
        Parsed::Fail(r) => Parsed::Fail(r),
    }
}

/// Directive arguments up to and including the closing `)`. An argument that
/// consumes nothing is refused.
pub open spec fn spec_directive_args(t: Seq<char>) -> Parsed<Seq<ComponentView>>
    decreases t.len(),
{
    if starts_with(t, ')') {
        Parsed::Done(t.drop_first(), seq![])
    } else {
        match spec_directive_argument(t) {
            Parsed::Done(r, a) => if r.len() < t.len() {
                prepend(a, spec_directive_args(r))
            } else {
                Parsed::Fail(r)
            },
            Parsed::Fail(r) => Parsed::Fail(r),
        }
    }
}

/// `directive`: a directive name, then arguments up to `)`.
pub open spec fn spec_directive(t: Seq<char>) -> Parsed<NodeView> {
    match spec_directive_name(t) {
        Parsed::Done(r, n) => match spec_directive_args(r) {
            Parsed::Done(r2, a) => Parsed::Done(r2, NodeView::Directive(n, a)),
            Parsed::Fail(x) => Parsed::Fail(x),
        },
        Parsed::Fail(r) => Parsed::Fail(r),
    }
}

/// `_` standing alone: not followed by a character that continues an identifier.
pub open spec fn lone_underscore(t: Seq<char>) -> bool {
    starts_with(t, '_') && !(t.len() > 1 && in_class(t[1], CharClass::IdentTail))
}

/// `basic`: a wildcard, a name, a quoted literal or a group, with whitespace
/// around it. A `_` standing alone is the wildcard; `_` followed by identifier
/// characters starts a name.
pub open spec fn spec_basic(t: Seq<char>) -> Parsed<NodeView>
    decreases t.len(), 1int,
{
    if t.len() > 0 && in_class(t[0], CharClass::Space) {
        spec_basic(t.drop_first())
    } else if lone_underscore(t) {
        then_ws(spec_wildcard(t))
    } else if t.len() > 0 && is_ident_start(t[0]) {
        then_ws(spec_name(t))
    } else if starts_with(t, '"') {
        then_ws(spec_anonymous(t))
    } else if starts_with(t, '(') {
        then_ws(spec_group(t))
    } else {
        Parsed::Fail(t)
    }
}

/// `group`: `(`, then nodes and directives, then `)`.
pub open spec fn spec_group(t: Seq<char>) -> Parsed<NodeView>
    decreases t.len(), 0int,
{
    if starts_with(t, '(') {
        match spec_group_items(t.drop_first()) {
            Parsed::Done(r, vs) => Parsed::Done(r, NodeView::Group(vs)),
            Parsed::Fail(r) => Parsed::Fail(r),
        }
    } else {
        Parsed::Fail(t)
    }
}

/// The children of a group up to and including its `)`. A child that
/// consumes nothing is refused.
pub open spec fn spec_group_items(t: Seq<char>) -> Parsed<Seq<NodeView>>
    decreases t.len(), 7int,
{
    if starts_with(t, ')') {
        Parsed::Done(t.drop_first(), seq![])
    } else {
        match spec_group_child(t) {
            Parsed::Done(r, v) => if r.len() < t.len() {
                prepend(v, spec_group_items(r))
            } else {
                Parsed::Fail(r)
            },
            Parsed::Fail(r) => Parsed::Fail(r),
        }
    }
}

/// One child of a group: a node, or else a directive.
pub open spec fn spec_group_child(t: Seq<char>) -> Parsed<NodeView>
    decreases t.len(), 6int,
{
    let o = spec_node(t);
    if o is Fail {
        first_or_furthest(o, spec_directive(t))
    } else {
        o
    }
}

/// `full-node`: whitespace and comment lines, a captured node or else a
/// non-capturable one, whitespace and comment lines.
pub open spec fn spec_node(t: Seq<char>) -> Parsed<NodeView>
    decreases t.len(), 5int,
{
    let u = skip_trivia(t);
    // `u` is always a suffix of `t`; the test makes the recursion's end visible.
    if u.len() <= t.len() {
        then_trivia(spec_node_choice(u))
    } else {
        Parsed::Fail(u)
    }
}

/// A captured node, or else an anchor or negated field.
pub open spec fn spec_node_choice(t: Seq<char>) -> Parsed<NodeView>
    decreases t.len(), 4int,
{
    let o = spec_capture(t);
    if o is Fail {
        first_or_furthest(o, spec_non_capturable(t))
    } else {
        o
    }
}

/// `captured`: a quantified node, then an optional capture label.
pub open spec fn spec_capture(t: Seq<char>) -> Parsed<NodeView>
    decreases t.len(), 3int,
{
    match spec_quantified(t) {
        Parsed::Done(r, v) => match spec_capture_label(r) {
            Parsed::Done(r2, l) => Parsed::Done(r2, NodeView::Capture(l, Box::new(v))),
            _ => Parsed::Done(r, v),
        },
        Parsed::Fail(r) => Parsed::Fail(r),
    }
}

/// `quantified`: a basic node, then at most one of `*`, `+`, `?`.
pub open spec fn spec_quantified(t: Seq<char>) -> Parsed<NodeView>
    decreases t.len(), 2int,
{
    match spec_basic(t) {
        Parsed::Done(r, v) => if starts_with(r, '*') {
            Parsed::Done(r.drop_first(), NodeView::ZeroOrMore(Box::new(v)))
        } else if starts_with(r, '+') {
            Parsed::Done(r.drop_first(), NodeView::OneOrMore(Box::new(v)))
        } else if starts_with(r, '?') {
            Parsed::Done(r.drop_first(), NodeView::Optional(Box::new(v)))
        } else {
            Parsed::Done(r, v)
        },
        Parsed::Fail(r) => Parsed::Fail(r),
    }
}

/// A result at character offsets of `s` agrees with the parse outcome `o`.
pub open spec fn node_agrees<'a>(
    r: Result<(usize, PatternNode<'a>), ParseError>,
    o: Parsed<NodeView>,
    s: Seq<char>,
) -> bool {
    match r {
        Ok((e, n)) => e <= s.len() && o == Parsed::Done(suffix_from(s, e as int), n@),
        Err(ParseError::Syntax(at)) => at <= s.len() && o == Parsed::<NodeView>::Fail(
            suffix_from(s, at as int),
        ),
    }
}

/// As `node_agrees`, for a sequence of nodes.
pub open spec fn nodes_agrees<'a>(
    r: Result<(usize, Vec<PatternNode<'a>>), ParseError>,
    o: Parsed<Seq<NodeView>>,
    s: Seq<char>,
) -> bool {
    match r {
        Ok((e, v)) => e <= s.len() && o == Parsed::Done(suffix_from(s, e as int), node_views(v@)),
        Err(ParseError::Syntax(at)) => at <= s.len() && o == Parsed::<Seq<NodeView>>::Fail(
            suffix_from(s, at as int),
        ),
    }
}

/// As `node_agrees`, for a directive argument.
pub open spec fn component_agrees<'a>(
    r: Result<(usize, DirectiveComponent<'a>), ParseError>,
    o: Parsed<ComponentView>,
    s: Seq<char>,
) -> bool {
    match r {
        Ok((e, a)) => e <= s.len() && o == Parsed::Done(suffix_from(s, e as int), a@),
        Err(ParseError::Syntax(at)) => at <= s.len() && o == Parsed::<ComponentView>::Fail(
            suffix_from(s, at as int),
        ),
    }
}

/// As `node_agrees`, for a sequence of directive arguments.
pub open spec fn components_agrees<'a>(
    r: Result<(usize, Vec<DirectiveComponent<'a>>), ParseError>,
    o: Parsed<Seq<ComponentView>>,
    s: Seq<char>,
) -> bool {
    match r {
        Ok((e, v)) => e <= s.len() && o == Parsed::Done(
            suffix_from(s, e as int),
            component_views(v@),
        ),
        Err(ParseError::Syntax(at)) => at <= s.len() && o == Parsed::<Seq<ComponentView>>::Fail(
            suffix_from(s, at as int),
        ),
    }
}

/// A result of a public node parser agrees with the outcome `o` on the input
/// `s`: on success the remainder and the node are those of `o`; a syntax
/// error gives the offset at which `o` failed.
pub open spec fn node_parsed<'a>(
    r: Result<(&'a str, PatternNode<'a>), ParseError>,
    o: Parsed<NodeView>,
    s: Seq<char>,
) -> bool {
    match o {
        Parsed::Done(rest, v) => r is Ok && r->Ok_0.0@ == rest && r->Ok_0.1@ == v,
        Parsed::Fail(rest) => r matches Err(ParseError::Syntax(at)) && at == s.len() - rest.len(),
    }
}

/// As `node_parsed`, for a directive argument.
pub open spec fn component_parsed<'a>(
    r: Result<(&'a str, DirectiveComponent<'a>), ParseError>,
    o: Parsed<ComponentView>,
    s: Seq<char>,
) -> bool {
    match o {
        Parsed::Done(rest, v) => r is Ok && r->Ok_0.0@ == rest && r->Ok_0.1@ == v,
        Parsed::Fail(rest) => r matches Err(ParseError::Syntax(at)) && at == s.len() - rest.len(),
    }
}

proof fn lemma_node_views_push<'a>(s: Seq<PatternNode<'a>>, n: PatternNode<'a>)
    ensures
        node_views(s.push(n)) == node_views(s).push(n@),
{
    assert(s.push(n).drop_last() =~= s);
}

proof fn lemma_component_views_push<'a>(s: Seq<DirectiveComponent<'a>>, a: DirectiveComponent<'a>)
    ensures
        component_views(s.push(a)) == component_views(s).push(a@),
{
    assert(component_views(s.push(a)) =~= component_views(s).push(a@));
}

proof fn lemma_prepend_all_push<V>(vs: Seq<V>, v: V, o: Parsed<Seq<V>>)
    ensures
        prepend_all(vs, prepend(v, o)) == prepend_all(vs.push(v), o),
{
    if let Parsed::Done(r, ws) = o {
        assert(vs + (seq![v] + ws) =~= vs.push(v) + ws);
    }
}

proof fn lemma_prepend_all_empty<V>(vs: Seq<V>, r: Seq<char>)
    ensures
        prepend_all(vs, Parsed::Done(r, seq![])) == Parsed::Done(r, vs),
{
    assert(vs + seq![] =~= vs);
}

proof fn lemma_basic_skips_ws(t: Seq<char>)
    ensures
        spec_basic(t) == spec_basic(skip_ws(t)),
    decreases t.len(),
{
    if t.len() > 0 && in_class(t[0], CharClass::Space) {
        lemma_basic_skips_ws(t.drop_first());
    }
}

// The parsers named `..._at` work at a character offset `p` of a `Source`;
// each agrees with the spec function of the same name.
pub(crate) fn name_at<'a>(src: &Source<'a>, p: usize) -> (r: Result<(usize, PatternNode<'a>), ParseError>)
    requires
        src.wf(),
        p <= src@.len(),
    ensures
        node_agrees(r, spec_name(suffix_from(src@, p as int)), src@),
{
    match identifier_at(src, p) {
        Ok((e, x)) => Ok((e, PatternNode::Name(x))),
        Err(err) => Err(err),
    }
}

pub(crate) fn anonymous_at<'a>(src: &Source<'a>, p: usize) -> (r: Result<(usize, PatternNode<'a>), ParseError>)
    requires
        src.wf(),
        p <= src@.len(),
    ensures
        node_agrees(r, spec_anonymous(suffix_from(src@, p as int)), src@),
{
    match string_at(src, p) {
        Ok((e, x)) => Ok((e, PatternNode::Anonymous(x))),
        Err(err) => Err(err),
    }
}

pub(crate) fn wildcard_at<'a>(src: &Source<'a>, p: usize) -> (r: Result<(usize, PatternNode<'a>), ParseError>)
    requires
        src.wf(),
        p <= src@.len(),
    ensures
        node_agrees(r, spec_wildcard(suffix_from(src@, p as int)), src@),
{
    if src.at(p, '_') {
        proof {
            lemma_suffix_step(src@, p as int);
        }
        Ok((p + 1, PatternNode::Wildcard))
    } else {
        Err(ParseError::Syntax(p))
    }
}

pub(crate) fn anchor_at<'a>(src: &Source<'a>, p: usize) -> (r: Result<(usize, PatternNode<'a>), ParseError>)
    requires
        src.wf(),
        p <= src@.len(),
    ensures
        node_agrees(r, spec_anchor(suffix_from(src@, p as int)), src@),
{
    if src.at(p, '.') {
        proof {
            lemma_suffix_step(src@, p as int);
        }
        Ok((p + 1, PatternNode::Anchor))
    } else {
        Err(ParseError::Syntax(p))
    }
}

pub(crate) fn negated_field_at<'a>(src: &Source<'a>, p: usize) -> (r: Result<(usize, PatternNode<'a>), ParseError>)
    requires
        src.wf(),
        p <= src@.len(),
    ensures
        node_agrees(r, spec_negated_field(suffix_from(src@, p as int)), src@),
{
    if !src.at(p, '!') {
        return Err(ParseError::Syntax(p));
    }
    proof {
        lemma_suffix_step(src@, p as int);
    }
    match identifier_at(src, p + 1) {
        Ok((e, x)) => Ok((e, PatternNode::NegatedField(x))),
        Err(err) => Err(err),
    }
}

pub(crate) fn non_capturable_at<'a>(src: &Source<'a>, p: usize) -> (r: Result<(usize, PatternNode<'a>), ParseError>)
    requires
        src.wf(),
        p <= src@.len(),
    ensures
        node_agrees(r, spec_non_capturable(suffix_from(src@, p as int)), src@),
{
    let u = scan(src, p, CharClass::Space);
    let res = if src.at(u, '.') {
        anchor_at(src, u)
    } else {
        negated_field_at(src, u)
    };
    match res {
        Ok((e, n)) => Ok((scan(src, e, CharClass::Space), n)),
        Err(err) => Err(err),
    }
}

pub(crate) fn capture_label_at<'a>(src: &Source<'a>, p: usize) -> (r: Result<(usize, &'a str), ParseError>)
    requires
        src.wf(),
        p <= src@.len(),
    ensures
        text_agrees(r, spec_capture_label(suffix_from(src@, p as int)), src@),
{
    if !src.at(p, '@') {
        return Err(ParseError::Syntax(p));
    }
    proof {
        lemma_suffix_step(src@, p as int);
    }
    identifier_at(src, p + 1)
}

pub(crate) fn directive_name_at<'a>(src: &Source<'a>, p: usize) -> (r: Result<(usize, &'a str), ParseError>)
    requires
        src.wf(),
        p <= src@.len(),
    ensures
        text_agrees(r, spec_directive_name(suffix_from(src@, p as int)), src@),
{
    if !src.at(p, '#') {
        return Err(ParseError::Syntax(p));
    }
    proof {
        lemma_suffix_step(src@, p as int);
    }
    let q = scan(src, p + 1, CharClass::Alpha);
    if q == p + 1 || !src.at(q, '!') {
        return Err(ParseError::Syntax(q));
    }
    proof {
        lemma_suffix_step(src@, q as int);
    }
    let x = src.slice(p + 1, q);
    assert(consumed(suffix_from(src@, p + 1), suffix_from(src@, q as int)) =~= x@);
    Ok((q + 1, x))
}

pub(crate) fn directive_argument_at<'a>(src: &Source<'a>, p: usize) -> (r: Result<
    (usize, DirectiveComponent<'a>),
    ParseError,
>)
    requires
        src.wf(),
        p <= src@.len(),
    ensures
        component_agrees(r, spec_directive_argument(suffix_from(src@, p as int)), src@),
{
    let u = scan(src, p, CharClass::Space);
    match capture_label_at(src, u) {
        Ok((e, l)) => Ok((scan(src, e, CharClass::Space), DirectiveComponent::Capture(l))),
        Err(err) => Err(err),
    }
}

pub(crate) fn directive_args_at<'a>(src: &Source<'a>, p: usize) -> (r: Result<
    (usize, Vec<DirectiveComponent<'a>>),
    ParseError,
>)
    requires
        src.wf(),
        p <= src@.len(),
    ensures
        components_agrees(r, spec_directive_args(suffix_from(src@, p as int)), src@),
{
    let mut args: Vec<DirectiveComponent<'a>> = Vec::new();
    let mut q: usize = p;
    loop
        invariant
            src.wf(),
            p <= q <= src@.len(),
            spec_directive_args(suffix_from(src@, p as int)) == prepend_all(
                component_views(args@),
                spec_directive_args(suffix_from(src@, q as int)),
            ),
        decreases src@.len() - q,
    {
        if src.at(q, ')') {
            proof {
                lemma_suffix_step(src@, q as int);
                lemma_prepend_all_empty(component_views(args@), suffix_from(src@, q + 1));
            }
            return Ok((q + 1, args));
        }
        match directive_argument_at(src, q) {
            Ok((e, a)) => {
                if e <= q {
                    return Err(ParseError::Syntax(e));
                }
                proof {
                    lemma_prepend_all_push(
                        component_views(args@),
                        a@,
                        spec_directive_args(suffix_from(src@, e as int)),
                    );
                    lemma_component_views_push(args@, a);
                }
                args.push(a);
                q = e;
            },
            Err(err) => {
                return Err(err);
            },
        }
    }
}

pub(crate) fn directive_at<'a>(src: &Source<'a>, p: usize) -> (r: Result<(usize, PatternNode<'a>), ParseError>)
    requires
        src.wf(),
        p <= src@.len(),
    ensures
        node_agrees(r, spec_directive(suffix_from(src@, p as int)), src@),
{
    match directive_name_at(src, p) {
        Ok((e, n)) => match directive_args_at(src, e) {
            Ok((e2, args)) => Ok((e2, PatternNode::Directive(n, args))),
            Err(err) => Err(err),
        },
        Err(err) => Err(err),
    }
}

pub(crate) fn basic_at<'a>(src: &Source<'a>, p: usize) -> (r: Result<(usize, PatternNode<'a>), ParseError>)
    requires
        src.wf(),
        p <= src@.len(),
    ensures
        node_agrees(r, spec_basic(suffix_from(src@, p as int)), src@),
    decreases src@.len() - p, 1int,
{
    let u = scan(src, p, CharClass::Space);
    let ghost t = suffix_from(src@, u as int);
    proof {
        lemma_basic_skips_ws(suffix_from(src@, p as int));
        if u < src@.len() {
            lemma_suffix_step(src@, u as int);
        }
    }
    let res = match src.peek(u) {
        Some(c) => {
            let lone = c == '_' && match src.peek(u + 1) {
                Some(d) => !in_class_exec(d, CharClass::IdentTail),
                None => true,
            };
            proof {
                if u + 1 < src@.len() {
                    lemma_suffix_step(src@, u + 1);
                }
            }
            if lone {
                wildcard_at(src, u)
            } else if ('a' <= c && c <= 'z') || ('A' <= c && c <= 'Z') || c == '_' {
                name_at(src, u)
            } else if c == '"' {
                anonymous_at(src, u)
            } else if c == '(' {
                group_at(src, u)
            } else {
                Err(ParseError::Syntax(u))
            }
        },
        None => Err(ParseError::Syntax(u)),
    };
    match res {
        Ok((e, n)) => Ok((scan(src, e, CharClass::Space), n)),
        Err(err) => Err(err),
    }
}

pub(crate) fn group_at<'a>(src: &Source<'a>, p: usize) -> (r: Result<(usize, PatternNode<'a>), ParseError>)
    requires
        src.wf(),
        p <= src@.len(),
    ensures
        node_agrees(r, spec_group(suffix_from(src@, p as int)), src@),
    decreases src@.len() - p, 0int,
{
    if !src.at(p, '(') {
        return Err(ParseError::Syntax(p));
    }
    proof {
        lemma_suffix_step(src@, p as int);
    }
    match group_items_at(src, p + 1) {
        Ok((e, children)) => Ok((e, PatternNode::Group(children))),
        Err(err) => Err(err),
    }
}

pub(crate) fn group_items_at<'a>(src: &Source<'a>, p: usize) -> (r: Result<
    (usize, Vec<PatternNode<'a>>),
    ParseError,
>)
    requires
        src.wf(),
        p <= src@.len(),
    ensures
        nodes_agrees(r, spec_group_items(suffix_from(src@, p as int)), src@),
    decreases src@.len() - p, 7int,
{
    let mut children: Vec<PatternNode<'a>> = Vec::new();
    let mut q: usize = p;
    loop
        invariant
            src.wf(),
            p <= q <= src@.len(),
            spec_group_items(suffix_from(src@, p as int)) == prepend_all(
                node_views(children@),
                spec_group_items(suffix_from(src@, q as int)),
            ),
        decreases src@.len() - q,
    {
        if src.at(q, ')') {
            proof {
                lemma_suffix_step(src@, q as int);
                lemma_prepend_all_empty(node_views(children@), suffix_from(src@, q + 1));
            }
            return Ok((q + 1, children));
        }
        match group_child_at(src, q) {
            Ok((e, n)) => {
                if e <= q {
                    return Err(ParseError::Syntax(e));
                }
                proof {
                    lemma_prepend_all_push(
                        node_views(children@),
                        n@,
                        spec_group_items(suffix_from(src@, e as int)),
                    );
                    lemma_node_views_push(children@, n);
                }
                children.push(n);
                q = e;
            },
            Err(err) => {
                return Err(err);
            },
        }
    }
}

pub(crate) fn group_child_at<'a>(src: &Source<'a>, p: usize) -> (r: Result<(usize, PatternNode<'a>), ParseError>)
    requires
        src.wf(),
        p <= src@.len(),
    ensures
        node_agrees(r, spec_group_child(suffix_from(src@, p as int)), src@),
    decreases src@.len() - p, 6int,
{
    match node_at(src, p) {
        Err(ParseError::Syntax(a)) => match directive_at(src, p) {
            Err(ParseError::Syntax(b)) => Err(ParseError::Syntax(if a > b { a } else { b })),
            other => other,
        },
        other => other,
    }
}

pub(crate) fn node_at<'a>(src: &Source<'a>, p: usize) -> (r: Result<(usize, PatternNode<'a>), ParseError>)
    requires
        src.wf(),
        p <= src@.len(),
    ensures
        node_agrees(r, spec_node(suffix_from(src@, p as int)), src@),
    decreases src@.len() - p, 5int,
{
    let u = trivia_at(src, p);
    match node_choice_at(src, u) {
        Ok((e, n)) => Ok((trivia_at(src, e), n)),
        Err(err) => Err(err),
    }
}

pub(crate) fn node_choice_at<'a>(src: &Source<'a>, p: usize) -> (r: Result<(usize, PatternNode<'a>), ParseError>)
    requires
        src.wf(),
        p <= src@.len(),
    ensures
        node_agrees(r, spec_node_choice(suffix_from(src@, p as int)), src@),
    decreases src@.len() - p, 4int,
{
    match capture_at(src, p) {
        Err(ParseError::Syntax(a)) => match non_capturable_at(src, p) {
            Err(ParseError::Syntax(b)) => Err(ParseError::Syntax(if a > b { a } else { b })),
            other => other,
        },
        other => other,
    }
}

pub(crate) fn capture_at<'a>(src: &Source<'a>, p: usize) -> (r: Result<(usize, PatternNode<'a>), ParseError>)
    requires
        src.wf(),
        p <= src@.len(),
    ensures
        node_agrees(r, spec_capture(suffix_from(src@, p as int)), src@),
    decreases src@.len() - p, 3int,
{
    match quantified_at(src, p) {
        Ok((e, n)) => match capture_label_at(src, e) {
            Ok((e2, l)) => Ok((e2, PatternNode::Capture(l, Box::new(n)))),
            Err(_) => Ok((e, n)),
        },
        Err(err) => Err(err),
    }
}

pub(crate) fn quantified_at<'a>(src: &Source<'a>, p: usize) -> (r: Result<(usize, PatternNode<'a>), ParseError>)
    requires
        src.wf(),
        p <= src@.len(),
    ensures
        node_agrees(r, spec_quantified(suffix_from(src@, p as int)), src@),
    decreases src@.len() - p, 2int,
{
    match basic_at(src, p) {
        Ok((e, n)) => {
            proof {
                if e < src@.len() {
                    lemma_suffix_step(src@, e as int);
                }
            }
            match src.peek(e) {
                Some('*') => Ok((e + 1, PatternNode::ZeroOrMore(Box::new(n)))),
                Some('+') => Ok((e + 1, PatternNode::OneOrMore(Box::new(n)))),
                Some('?') => Ok((e + 1, PatternNode::Optional(Box::new(n)))),
                _ => Ok((e, n)),
            }
        },
        Err(err) => Err(err),
    }
}

/// `alternation`: `[`, then nodes, then `]`.
pub open spec fn spec_alternation(t: Seq<char>) -> Parsed<NodeView> {
    if starts_with(t, '[') {
        match spec_alternation_items(t.drop_first()) {
            Parsed::Done(r, vs) => Parsed::Done(r, NodeView::Alternation(vs)),
            Parsed::Fail(r) => Parsed::Fail(r),
        }
    } else {
        Parsed::Fail(t)
    }
}

/// The alternatives of an alternation up to and including its `]`. An
/// alternative that consumes nothing is refused.
pub open spec fn spec_alternation_items(t: Seq<char>) -> Parsed<Seq<NodeView>>
    decreases t.len(),
{
    if starts_with(t, ']') {
        Parsed::Done(t.drop_first(), seq![])
    } else {
        match spec_node(t) {
            Parsed::Done(r, v) => if r.len() < t.len() {
                prepend(v, spec_alternation_items(r))
            } else {
                Parsed::Fail(r)
            },
            Parsed::Fail(r) => Parsed::Fail(r),
        }
    }
}

/// `field`: an identifier, `:` right after it, then a node.
pub open spec fn spec_field(t: Seq<char>) -> Parsed<NodeView> {
    match spec_identifier(t) {
        Parsed::Done(r, n) => if starts_with(r, ':') {
            match spec_node(r.drop_first()) {
                Parsed::Done(r2, v) => Parsed::Done(r2, NodeView::Field(n, Box::new(v))),
                Parsed::Fail(x) => Parsed::Fail(x),
            }
        } else {
            Parsed::Fail(r)
        },
        Parsed::Fail(r) => Parsed::Fail(r),
    }
}

/// A basic node that must be followed by the quantifier `c`, wrapped by it.
pub open spec fn spec_suffixed(t: Seq<char>, c: char) -> Parsed<NodeView> {
    match spec_basic(t) {
        Parsed::Done(r, v) => if starts_with(r, c) {
            Parsed::Done(r.drop_first(), quantify(c, v))
        } else {
            Parsed::Fail(r)
        },
        Parsed::Fail(r) => Parsed::Fail(r),
    }
}

/// The node that the quantifier `c` makes of `v`.
pub open spec fn quantify(c: char, v: NodeView) -> NodeView {
    if c == '*' {
        NodeView::ZeroOrMore(Box::new(v))
    } else if c == '+' {
        NodeView::OneOrMore(Box::new(v))
    } else {
        NodeView::Optional(Box::new(v))
    }
}

/// A basic node followed by `*`.
pub open spec fn spec_zero_or_more(t: Seq<char>) -> Parsed<NodeView> {
    spec_suffixed(t, '*')
}

/// A basic node followed by `+`.
pub open spec fn spec_one_or_more(t: Seq<char>) -> Parsed<NodeView> {
    spec_suffixed(t, '+')
}

/// A basic node followed by `?`.
pub open spec fn spec_optional(t: Seq<char>) -> Parsed<NodeView> {
    spec_suffixed(t, '?')
}

/// A whole pattern: one full node.
pub open spec fn spec_pattern(t: Seq<char>) -> Parsed<NodeView> {
    spec_node(t)
}

pub(crate) fn alternation_at<'a>(src: &Source<'a>, p: usize) -> (r: Result<(usize, PatternNode<'a>), ParseError>)
    requires
        src.wf(),
        p <= src@.len(),
    ensures
        node_agrees(r, spec_alternation(suffix_from(src@, p as int)), src@),
{
    if !src.at(p, '[') {
        return Err(ParseError::Syntax(p));
    }
    proof {
        lemma_suffix_step(src@, p as int);
    }
    match alternation_items_at(src, p + 1) {
        Ok((e, alternatives)) => Ok((e, PatternNode::Alternation(alternatives))),
        Err(err) => Err(err),
    }
}

pub(crate) fn alternation_items_at<'a>(src: &Source<'a>, p: usize) -> (r: Result<
    (usize, Vec<PatternNode<'a>>),
    ParseError,
>)
    requires
        src.wf(),
        p <= src@.len(),
    ensures
        nodes_agrees(r, spec_alternation_items(suffix_from(src@, p as int)), src@),
{
    let mut alternatives: Vec<PatternNode<'a>> = Vec::new();
    let mut q: usize = p;
    loop
        invariant
            src.wf(),
            p <= q <= src@.len(),
            spec_alternation_items(suffix_from(src@, p as int)) == prepend_all(
                node_views(alternatives@),
                spec_alternation_items(suffix_from(src@, q as int)),
            ),
        decreases src@.len() - q,
    {
        if src.at(q, ']') {
            proof {
                lemma_suffix_step(src@, q as int);
                lemma_prepend_all_empty(node_views(alternatives@), suffix_from(src@, q + 1));
            }
            return Ok((q + 1, alternatives));
        }
        match node_at(src, q) {
            Ok((e, n)) => {
                if e <= q {
                    return Err(ParseError::Syntax(e));
                }
                proof {
                    lemma_prepend_all_push(
                        node_views(alternatives@),
                        n@,
                        spec_alternation_items(suffix_from(src@, e as int)),
                    );
                    lemma_node_views_push(alternatives@, n);
                }
                alternatives.push(n);
                q = e;
            },
            Err(err) => {
                return Err(err);
            },
        }
    }
}

pub(crate) fn field_at<'a>(src: &Source<'a>, p: usize) -> (r: Result<(usize, PatternNode<'a>), ParseError>)
    requires
        src.wf(),
        p <= src@.len(),
    ensures
        node_agrees(r, spec_field(suffix_from(src@, p as int)), src@),
{
    match identifier_at(src, p) {
        Ok((e, name)) => {
            if !src.at(e, ':') {
                return Err(ParseError::Syntax(e));
            }
            proof {
                lemma_suffix_step(src@, e as int);
            }
            match node_at(src, e + 1) {
                Ok((e2, n)) => Ok((e2, PatternNode::Field(name, Box::new(n)))),
                Err(err) => Err(err),
            }
        },
        Err(err) => Err(err),
    }
}

pub(crate) fn suffixed_at<'a>(src: &Source<'a>, p: usize, c: char) -> (r: Result<
    (usize, PatternNode<'a>),
    ParseError,
>)
    requires
        src.wf(),
        p <= src@.len(),
        c == '*' || c == '+' || c == '?',
    ensures
        node_agrees(r, spec_suffixed(suffix_from(src@, p as int), c), src@),
{
    match basic_at(src, p) {
        Ok((e, n)) => {
            if !src.at(e, c) {
                return Err(ParseError::Syntax(e));
            }
            proof {
                lemma_suffix_step(src@, e as int);
            }
            let node = if c == '*' {
                PatternNode::ZeroOrMore(Box::new(n))
            } else if c == '+' {
                PatternNode::OneOrMore(Box::new(n))
            } else {
                PatternNode::Optional(Box::new(n))
            };
            Ok((e + 1, node))
        },
        Err(err) => Err(err),
    }
}

fn finish_node<'a>(
    src: &Source<'a>,
    r: Result<(usize, PatternNode<'a>), ParseError>,
    o: Ghost<Parsed<NodeView>>,
) -> (res: Result<(&'a str, PatternNode<'a>), ParseError>)
    requires
        src.wf(),
        node_agrees(r, o@, src@),
    ensures
        node_parsed(res, o@, src@),
{
    match r {
        Ok((e, n)) => Ok((src.slice(e, src.len), n)),
        Err(err) => Err(err),
    }
}

fn finish_text<'a>(
    src: &Source<'a>,
    r: Result<(usize, &'a str), ParseError>,
    o: Ghost<Parsed<Seq<char>>>,
) -> (res: Result<(&'a str, &'a str), ParseError>)
    requires
        src.wf(),
        text_agrees(r, o@, src@),
    ensures
        text_parsed(res, o@, src@),
{
    match r {
        Ok((e, x)) => Ok((src.slice(e, src.len), x)),
        Err(err) => Err(err),
    }
}

/// Parses a name: an identifier.
pub fn parse_name<'a>(i: &'a str) -> (r: Result<(&'a str, PatternNode<'a>), ParseError>)
    ensures
        node_parsed(r, spec_name(i@), i@),
{
    let src = Source::new(i);
    proof {
        lemma_suffix_end(i@);
    }
    finish_node(&src, name_at(&src, 0), Ghost(spec_name(i@)))
}

/// Parses an anonymous node: a quoted literal.
pub fn parse_anonymous<'a>(i: &'a str) -> (r: Result<(&'a str, PatternNode<'a>), ParseError>)
    ensures
        node_parsed(r, spec_anonymous(i@), i@),
{
    let src = Source::new(i);
    proof {
        lemma_suffix_end(i@);
    }
    finish_node(&src, anonymous_at(&src, 0), Ghost(spec_anonymous(i@)))
}

/// Parses a wildcard: `_`.
pub fn parse_wildcard<'a>(i: &'a str) -> (r: Result<(&'a str, PatternNode<'a>), ParseError>)
    ensures
        node_parsed(r, spec_wildcard(i@), i@),
{
    let src = Source::new(i);
    proof {
        lemma_suffix_end(i@);
    }
    finish_node(&src, wildcard_at(&src, 0), Ghost(spec_wildcard(i@)))
}

/// Parses an anchor: `.`.
pub fn parse_anchor<'a>(i: &'a str) -> (r: Result<(&'a str, PatternNode<'a>), ParseError>)
    ensures
        node_parsed(r, spec_anchor(i@), i@),
{
    let src = Source::new(i);
    proof {
        lemma_suffix_end(i@);
    }
    finish_node(&src, anchor_at(&src, 0), Ghost(spec_anchor(i@)))
}

/// Parses an anchor or a negated field, with whitespace around it.
pub fn parse_non_capturable_node<'a>(i: &'a str) -> (r: Result<(&'a str, PatternNode<'a>), ParseError>)
    ensures
        node_parsed(r, spec_non_capturable(i@), i@),
{
    let src = Source::new(i);
    proof {
        lemma_suffix_end(i@);
    }
    finish_node(&src, non_capturable_at(&src, 0), Ghost(spec_non_capturable(i@)))
}

/// Parses a full node: comments, a captured node or else an anchor or
/// negated field, comments.
pub fn parse_node<'a>(i: &'a str) -> (r: Result<(&'a str, PatternNode<'a>), ParseError>)
    ensures
        node_parsed(r, spec_node(i@), i@),
{
    let src = Source::new(i);
    proof {
        lemma_suffix_end(i@);
    }
    finish_node(&src, node_at(&src, 0), Ghost(spec_node(i@)))
}

/// Parses an alternation: `[`, nodes, `]`.
pub fn parse_alternation<'a>(i: &'a str) -> (r: Result<(&'a str, PatternNode<'a>), ParseError>)
    ensures
        node_parsed(r, spec_alternation(i@), i@),
{
    let src = Source::new(i);
    proof {
        lemma_suffix_end(i@);
    }
    finish_node(&src, alternation_at(&src, 0), Ghost(spec_alternation(i@)))
}

/// Parses a group: `(`, nodes and directives, `)`.
pub fn parse_group<'a>(i: &'a str) -> (r: Result<(&'a str, PatternNode<'a>), ParseError>)
    ensures
        node_parsed(r, spec_group(i@), i@),
{
    let src = Source::new(i);
    proof {
        lemma_suffix_end(i@);
    }
    finish_node(&src, group_at(&src, 0), Ghost(spec_group(i@)))
}

/// Parses a field: an identifier, `:`, then a node.
pub fn parse_field<'a>(i: &'a str) -> (r: Result<(&'a str, PatternNode<'a>), ParseError>)
    ensures
        node_parsed(r, spec_field(i@), i@),
{
    let src = Source::new(i);
    proof {
        lemma_suffix_end(i@);
    }
    finish_node(&src, field_at(&src, 0), Ghost(spec_field(i@)))
}

/// Parses a negated field: `!` then an identifier.
pub fn parse_negated_field<'a>(i: &'a str) -> (r: Result<(&'a str, PatternNode<'a>), ParseError>)
    ensures
        node_parsed(r, spec_negated_field(i@), i@),
{
    let src = Source::new(i);
    proof {
        lemma_suffix_end(i@);
    }
    finish_node(&src, negated_field_at(&src, 0), Ghost(spec_negated_field(i@)))
}

/// Parses a capture label: `@` then an identifier, yielding the identifier.
pub fn parse_capture_label<'a>(i: &'a str) -> (r: Result<(&'a str, &'a str), ParseError>)
    ensures
        text_parsed(r, spec_capture_label(i@), i@),
{
    let src = Source::new(i);
    proof {
        lemma_suffix_end(i@);
    }
    finish_text(&src, capture_label_at(&src, 0), Ghost(spec_capture_label(i@)))
}

/// Parses a directive's name: `#`, letters, `!`, yielding the letters.
pub fn parse_directive_name<'a>(i: &'a str) -> (r: Result<(&'a str, &'a str), ParseError>)
    ensures
        text_parsed(r, spec_directive_name(i@), i@),
{
    let src = Source::new(i);
    proof {
        lemma_suffix_end(i@);
    }
    finish_text(&src, directive_name_at(&src, 0), Ghost(spec_directive_name(i@)))
}

/// Parses a directive's argument: a capture label with whitespace around it.
pub fn parse_directive_argument<'a>(i: &'a str) -> (r: Result<
    (&'a str, DirectiveComponent<'a>),
    ParseError,
>)
    ensures
        component_parsed(r, spec_directive_argument(i@), i@),
{
    let src = Source::new(i);
    proof {
        lemma_suffix_end(i@);
    }
    match directive_argument_at(&src, 0) {
        Ok((e, a)) => Ok((src.slice(e, src.len), a)),
        Err(err) => Err(err),
    }
}

/// Parses a directive from its name up to the `)` that closes its group.
pub fn parse_directive<'a>(i: &'a str) -> (r: Result<(&'a str, PatternNode<'a>), ParseError>)
    ensures
        node_parsed(r, spec_directive(i@), i@),
{
    let src = Source::new(i);
    proof {
        lemma_suffix_end(i@);
    }
    finish_node(&src, directive_at(&src, 0), Ghost(spec_directive(i@)))
}

/// Parses a basic node: a name, a quoted literal or a group, with whitespace around it.
pub fn parse_basic_node<'a>(i: &'a str) -> (r: Result<(&'a str, PatternNode<'a>), ParseError>)
    ensures
        node_parsed(r, spec_basic(i@), i@),
{
    let src = Source::new(i);
    proof {
        lemma_suffix_end(i@);
    }
    finish_node(&src, basic_at(&src, 0), Ghost(spec_basic(i@)))
}

/// Parses a quantified node, then an optional capture label.
pub fn parse_node_with_capture<'a>(i: &'a str) -> (r: Result<(&'a str, PatternNode<'a>), ParseError>)
    ensures
        node_parsed(r, spec_capture(i@), i@),
{
    let src = Source::new(i);
    proof {
        lemma_suffix_end(i@);
    }
    finish_node(&src, capture_at(&src, 0), Ghost(spec_capture(i@)))
}

/// Parses a basic node followed by `*`.
pub fn parse_zero_or_more<'a>(i: &'a str) -> (r: Result<(&'a str, PatternNode<'a>), ParseError>)
    ensures
        node_parsed(r, spec_zero_or_more(i@), i@),
{
    let src = Source::new(i);
    proof {
        lemma_suffix_end(i@);
    }
    finish_node(&src, suffixed_at(&src, 0, '*'), Ghost(spec_zero_or_more(i@)))
}

/// Parses a basic node followed by `+`.
pub fn parse_one_or_more<'a>(i: &'a str) -> (r: Result<(&'a str, PatternNode<'a>), ParseError>)
    ensures
        node_parsed(r, spec_one_or_more(i@), i@),
{
    let src = Source::new(i);
    proof {
        lemma_suffix_end(i@);
    }
    finish_node(&src, suffixed_at(&src, 0, '+'), Ghost(spec_one_or_more(i@)))
}

/// Parses a basic node followed by `?`.
pub fn parse_optional<'a>(i: &'a str) -> (r: Result<(&'a str, PatternNode<'a>), ParseError>)
    ensures
        node_parsed(r, spec_optional(i@), i@),
{
    let src = Source::new(i);
    proof {
        lemma_suffix_end(i@);
    }
    finish_node(&src, suffixed_at(&src, 0, '?'), Ghost(spec_optional(i@)))
}

/// Parses a basic node with at most one quantifier suffix.
pub fn parse_node_with_quantification<'a>(i: &'a str) -> (r: Result<
    (&'a str, PatternNode<'a>),
    ParseError,
>)
    ensures
        node_parsed(r, spec_quantified(i@), i@),
{
    let src = Source::new(i);
    proof {
        lemma_suffix_end(i@);
    }
    finish_node(&src, quantified_at(&src, 0), Ghost(spec_quantified(i@)))
}

/// Parses one query pattern.
pub fn parse_pattern<'a>(i: &'a str) -> (r: Result<(&'a str, PatternNode<'a>), ParseError>)
    ensures
        node_parsed(r, spec_pattern(i@), i@),
{
    let src = Source::new(i);
    proof {
        lemma_suffix_end(i@);
    }
    finish_node(&src, node_at(&src, 0), Ghost(spec_pattern(i@)))
}

/// Every identifier (a letter or `_`, then letters, digits, `_` and `-`)
/// parses as a name holding exactly that text, with no input left over.
pub proof fn law_name_of_identifier(s: Seq<char>)
    requires
        s.len() > 0,
        is_ident_start(s[0]),
        forall|j: int| 1 <= j < s.len() ==> in_class(#[trigger] s[j], CharClass::IdentTail),
    ensures
        spec_name(s) == Parsed::Done(Seq::<char>::empty(), NodeView::Name(s)),
{
    lemma_identifier_whole(s);
}

/// Every non-empty run of ASCII letters and digits, written between double
/// quotes, parses as an anonymous node holding that run, with no input left over.
pub proof fn law_anonymous_of_literal(s: Seq<char>)
    requires
        s.len() > 0,
        forall|j: int| 0 <= j < s.len() ==> is_alnum(#[trigger] s[j]),
    ensures
        spec_anonymous(seq!['"'] + s + seq!['"']) == Parsed::Done(
            Seq::<char>::empty(),
            NodeView::Anonymous(s),
        ),
{
    let q = seq!['"'];
    let t = q + s + q;
    assert(t.drop_first() =~= s + q);
    assert forall|j: int| 0 <= j < s.len() implies in_class(#[trigger] s[j], CharClass::Alnum) by {
        assert(is_alnum(s[j]));
    }
    lemma_skip_class_prefix(s, q, CharClass::Alnum);
    let rest = skip_class(s + q, CharClass::Alnum);
    assert(skip_class(q.drop_first(), CharClass::Alnum) == q.drop_first());
    assert(rest == q);
    assert(t.subrange(1, t.len() - rest.len()) =~= s);
    assert(rest.drop_first() =~= Seq::<char>::empty());
}

/// `_` and `.` each consume exactly one character, giving a wildcard and an
/// anchor, whatever follows them. Inside a pattern, a `_` that no identifier
/// character follows is the wildcard too.
pub proof fn law_single_character_nodes(t: Seq<char>)
    ensures
        spec_wildcard(seq!['_'] + t) == Parsed::Done(t, NodeView::Wildcard),
        spec_anchor(seq!['.'] + t) == Parsed::Done(t, NodeView::Anchor),
        t.len() == 0 || !in_class(t[0], CharClass::IdentTail) ==> spec_basic(seq!['_'] + t)
            == Parsed::Done(skip_ws(t), NodeView::Wildcard),
{
    let u = seq!['_'] + t;
    assert(u.drop_first() =~= t);
    assert((seq!['.'] + t).drop_first() =~= t);
    if t.len() > 0 {
        assert(u[1] == t[0]);
    }
}

/// Whitespace in front of a node changes nothing of how it parses.
pub proof fn lemma_node_after_ws(ws: Seq<char>, t: Seq<char>)
    requires
        forall|j: int| 0 <= j < ws.len() ==> in_class(#[trigger] ws[j], CharClass::Space),
    ensures
        spec_node(ws + t) == spec_node(t),
{
    lemma_trivia_after_ws(ws, t);
    lemma_trivia_len(t);
}

/// In a field, whitespace after the `:` is insignificant, and whitespace
/// between the field's name and the `:` is refused.
pub proof fn law_field_whitespace(name: Seq<char>, ws: Seq<char>, t: Seq<char>)
    requires
        name.len() > 0,
        is_ident_start(name[0]),
        forall|j: int| 1 <= j < name.len() ==> in_class(#[trigger] name[j], CharClass::IdentTail),
        forall|j: int| 0 <= j < ws.len() ==> in_class(#[trigger] ws[j], CharClass::Space),
    ensures
        spec_field(name + seq![':'] + ws + t) == spec_field(name + seq![':'] + t),
        ws.len() > 0 ==> spec_field(name + ws + seq![':'] + t) is Fail,
{
    let c = seq![':'];
    let after = c + ws + t;
    assert(name + c + ws + t =~= name + after);
    assert(name + c + t =~= name + (c + t));
    lemma_identifier_then(name, after);
    lemma_identifier_then(name, c + t);
    assert(after.drop_first() =~= ws + t);
    assert((c + t).drop_first() =~= t);
    lemma_node_after_ws(ws, t);
    if ws.len() > 0 {
        let gap = ws + c + t;
        assert(name + ws + c + t =~= name + gap);
        assert(gap[0] == ws[0]);
        lemma_identifier_then(name, gap);
    }
}

impl<'a> Clone for PatternNode<'a> {
    fn clone(&self) -> (r: Self)
        ensures
            r@ == self@,
        decreases self,
    {
        match self {
            PatternNode::Name(x) => PatternNode::Name(x),
            PatternNode::Anonymous(x) => PatternNode::Anonymous(x),
            PatternNode::Wildcard => PatternNode::Wildcard,
            PatternNode::Anchor => PatternNode::Anchor,
            PatternNode::Field(n, c) => PatternNode::Field(n, Box::new((**c).clone())),
            PatternNode::NegatedField(x) => PatternNode::NegatedField(x),
            PatternNode::Directive(n, args) => PatternNode::Directive(n, clone_components(args)),
            PatternNode::Capture(l, c) => PatternNode::Capture(l, Box::new((**c).clone())),
            PatternNode::ZeroOrMore(c) => PatternNode::ZeroOrMore(Box::new((**c).clone())),
            PatternNode::OneOrMore(c) => PatternNode::OneOrMore(Box::new((**c).clone())),
            PatternNode::Optional(c) => PatternNode::Optional(Box::new((**c).clone())),
            PatternNode::Group(cs) => PatternNode::Group(clone_nodes(cs)),
            PatternNode::Alternation(cs) => PatternNode::Alternation(clone_nodes(cs)),
        }
    }
}

fn clone_components<'a>(args: &Vec<DirectiveComponent<'a>>) -> (r: Vec<DirectiveComponent<'a>>)
    ensures
        component_views(r@) == component_views(args@),
{
    let mut r: Vec<DirectiveComponent<'a>> = Vec::new();
    let mut i: usize = 0;
    while i < args.len()
        invariant
            i <= args.len(),
            r@.len() == i,
            forall|j: int| 0 <= j < i ==> #[trigger] r@[j]@ == args@[j]@,
        decreases args.len() - i,
    {
        let a = match &args[i] {
            DirectiveComponent::Capture(l) => DirectiveComponent::Capture(l),
            DirectiveComponent::String(x) => DirectiveComponent::String(x),
        };
        r.push(a);
        i = i + 1;
    }
    assert(component_views(r@) =~= component_views(args@));
    r
}

fn clone_nodes<'a>(cs: &Vec<PatternNode<'a>>) -> (r: Vec<PatternNode<'a>>)
    ensures
        node_views(r@) == node_views(cs@),
    decreases cs,
{
    let mut r: Vec<PatternNode<'a>> = Vec::new();
    let mut i: usize = 0;
    while i < cs.len()
        invariant
            i <= cs.len(),
            node_views(r@) == node_views(cs@.take(i as int)),
        decreases cs.len() - i,
    {
        let n = cs[i].clone();
        proof {
            lemma_node_views_push(r@, n);
            lemma_node_views_push(cs@.take(i as int), cs@[i as int]);
            assert(cs@.take(i as int).push(cs@[i as int]) =~= cs@.take(i + 1));
        }
        r.push(n);
        i = i + 1;
    }
    assert(cs@.take(i as int) =~= cs@);
    r
}

} // verus!
