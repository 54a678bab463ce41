use vstd::prelude::*;
use vstd::string::StringExecFns;
use crate::tsquery::basic::{
    in_class, is_alnum, is_alpha, is_ident_start, lemma_identifier_then, lemma_skip_class_prefix,
    skip_class, skip_trivia, skip_ws, spec_string, starts_with, CharClass, Parsed,
};
use crate::tsquery::parser::{
    lemma_node_after_ws, spec_anonymous, spec_basic, spec_capture, spec_capture_label,
    spec_directive, spec_directive_args, spec_directive_argument, spec_directive_name,
    spec_group, spec_group_child, spec_group_items, spec_node, spec_node_choice,
    spec_non_capturable, spec_pattern, spec_quantified,
};
use crate::tsquery::parser::{component_views, node_views, ComponentView, DirectiveComponent, NodeView, PatternNode};

verus! {

/// The separator written before the child at index `i` of a group or an
/// alternation: none before the first, none before a directive (which must
/// follow its sibling directly), one space otherwise.
pub open spec fn separator(vs: Seq<NodeView>, i: int) -> Seq<char> {
    if i == 0 || vs[i] is Directive {
        Seq::empty()
    } else {
        seq![' ']
    }
}

/// The query text of a node.
pub open spec fn render(v: NodeView) -> Seq<char>
    decreases v, 1int,
{
    match v {
        NodeView::Name(x) => x,
        NodeView::Anonymous(x) => seq!['"'] + x + seq!['"'],
        NodeView::Wildcard => seq!['_'],
        NodeView::Anchor => seq!['.'],
        NodeView::Field(n, c) => n + seq![':'] + render(*c),
        NodeView::NegatedField(x) => seq!['!'] + x,
        NodeView::Directive(n, args) => seq!['#'] + n + seq!['!'] + render_args(args, 0) + seq![')'],
        NodeView::Capture(l, c) => render(*c) + seq!['@'] + l,
        NodeView::ZeroOrMore(c) => render(*c) + seq!['*'],
        NodeView::OneOrMore(c) => render(*c) + seq!['+'],
        NodeView::Optional(c) => render(*c) + seq!['?'],
        NodeView::Group(cs) => seq!['('] + render_from(cs, 0) + seq![')'],
        NodeView::Alternation(cs) => seq!['['] + render_from(cs, 0) + seq![']'],
    }
}

/// The text of the children of `vs` from index `i` on, with their separators.
pub open spec fn render_from(vs: Seq<NodeView>, i: int) -> Seq<char>
    decreases vs, vs.len() - i,
{
    if 0 <= i < vs.len() {
        separator(vs, i) + render(vs[i]) + render_from(vs, i + 1)
    } else {
        Seq::empty()
    }
}

/// The text of a directive argument, with the space before it.
pub open spec fn render_arg(a: ComponentView) -> Seq<char> {
    match a {
        ComponentView::Capture(l) => seq![' ', '@'] + l,
        ComponentView::Str(x) => seq![' ', '"'] + x + seq!['"'],
    }
}

/// The text of the directive arguments of `args` from index `i` on.
pub open spec fn render_args(args: Seq<ComponentView>, i: int) -> Seq<char>
    decreases args.len() - i,
{
    if 0 <= i < args.len() {
        render_arg(args[i]) + render_args(args, i + 1)
    } else {
        Seq::empty()
    }
}

proof fn lemma_node_views_index<'a>(s: Seq<PatternNode<'a>>)
    ensures
        node_views(s).len() == s.len(),
        forall|i: int| 0 <= i < s.len() ==> #[trigger] node_views(s)[i] == s[i]@,
    decreases s.len(),
{
    if s.len() > 0 {
        lemma_node_views_index(s.drop_last());
    }
}

fn append_arg<'a>(a: &DirectiveComponent<'a>, out: &mut String)
    ensures
        final(out)@ == old(out)@ + render_arg(a@),
{
    match a {
        DirectiveComponent::Capture(l) => {
            proof {
                reveal_strlit(" @");
            }
            out.append(" @");
            out.append(l);
            assert(final(out)@ =~= old(out)@ + render_arg(a@));
        },
        DirectiveComponent::String(x) => {
            proof {
                reveal_strlit(" \"");
                reveal_strlit("\"");
            }
            out.append(" \"");
            out.append(x);
            out.append("\"");
            assert(final(out)@ =~= old(out)@ + render_arg(a@));
        },
    }
}

fn append_children<'a>(cs: &Vec<PatternNode<'a>>, out: &mut String)
    ensures
        final(out)@ == old(out)@ + render_from(node_views(cs@), 0),
    decreases cs, 0int,
{
    let ghost vs = node_views(cs@);
    proof {
        lemma_node_views_index(cs@);
    }
    let mut i: usize = cs.len();
    let ghost start = out@;
    // Built from the back: `tail` holds the text of the children from `i` on.
    let mut tail = String::from_str("");
    proof {
        reveal_strlit("");
    }
    while i > 0
        invariant
            0 <= i <= cs.len(),
            vs == node_views(cs@),
            vs.len() == cs.len(),
            forall|j: int| 0 <= j < cs.len() ==> #[trigger] vs[j] == cs@[j]@,
            tail@ == render_from(vs, i as int),
            out@ == start,
        decreases i,
    {
        i = i - 1;
        let mut piece = String::from_str("");
        proof {
            reveal_strlit("");
            reveal_strlit(" ");
        }
        if i > 0 && !matches!(cs[i], PatternNode::Directive(_, _)) {
            piece.append(" ");
        }
        append_node(&cs[i], &mut piece);
        piece.append(tail.as_str());
        assert(piece@ =~= render_from(vs, i as int));
        tail = piece;
    }
    out.append(tail.as_str());
}

fn append_node<'a>(node: &PatternNode<'a>, out: &mut String)
    ensures
        final(out)@ == old(out)@ + render(node@),
    decreases node, 1int,
{
    proof {
        reveal_strlit("\"");
        reveal_strlit("_");
        reveal_strlit(".");
        reveal_strlit(":");
        reveal_strlit("!");
        reveal_strlit("#");
        reveal_strlit(")");
        reveal_strlit("@");
        reveal_strlit("*");
        reveal_strlit("+");
        reveal_strlit("?");
        reveal_strlit("(");
        reveal_strlit("[");
        reveal_strlit("]");
    }
    let ghost before = out@;
    match node {
        PatternNode::Name(x) => {
            out.append(x);
        },
        PatternNode::Anonymous(x) => {
            out.append("\"");
            out.append(x);
            out.append("\"");
        },
        PatternNode::Wildcard => {
            out.append("_");
        },
        PatternNode::Anchor => {
            out.append(".");
        },
        PatternNode::Field(n, c) => {
            out.append(n);
            out.append(":");
            append_node(c, out);
        },
        PatternNode::NegatedField(x) => {
            out.append("!");
            out.append(x);
        },
        PatternNode::Directive(n, args) => {
            out.append("#");
            out.append(n);
            out.append("!");
            let ghost avs = component_views(args@);
            let ghost mid = out@;
            let mut i: usize = args.len();
            // Built from the back: `tail` holds the text of the arguments from `i` on.
            let mut tail = String::from_str("");
            proof {
                reveal_strlit("");
            }
            while i > 0
                invariant
                    0 <= i <= args.len(),
                    avs == component_views(args@),
                    tail@ == render_args(avs, i as int),
                    out@ == mid,
                decreases i,
            {
                i = i - 1;
                let mut piece = String::from_str("");
                proof {
                    reveal_strlit("");
                }
                append_arg(&args[i], &mut piece);
                piece.append(tail.as_str());
                assert(piece@ =~= render_args(avs, i as int));
                tail = piece;
            }
            out.append(tail.as_str());
            out.append(")");
        },
        PatternNode::Capture(l, c) => {
            append_node(c, out);
            out.append("@");
            out.append(l);
        },
        PatternNode::ZeroOrMore(c) => {
            append_node(c, out);
            out.append("*");
        },
        PatternNode::OneOrMore(c) => {
            append_node(c, out);
            out.append("+");
        },
        PatternNode::Optional(c) => {
            append_node(c, out);
            out.append("?");
        },
        PatternNode::Group(cs) => {
            out.append("(");
            append_children(cs, out);
            out.append(")");
        },
        PatternNode::Alternation(cs) => {
            out.append("[");
            append_children(cs, out);
            out.append("]");
        },
    }
    assert(out@ =~= before + render(node@));
}

/// Writes a node back as query text.
pub fn render_pattern<'a>(node: &PatternNode<'a>) -> (r: String)
    ensures
        r@ == render(node@),
{
    let mut out = String::from_str("");
    proof {
        reveal_strlit("");
    }
    append_node(node, &mut out);
    assert(out@ =~= render(node@));
    out
}

/// An identifier: a letter or `_`, then letters, digits, `_` and `-`.
pub open spec fn valid_name(x: Seq<char>) -> bool {
    &&& x.len() > 0
    &&& is_ident_start(x[0])
    &&& forall|j: int| 1 <= j < x.len() ==> in_class(#[trigger] x[j], CharClass::IdentTail)
}

/// A quoted literal's content: one or more ASCII letters and digits.
pub open spec fn valid_literal(x: Seq<char>) -> bool {
    x.len() > 0 && forall|j: int| 0 <= j < x.len() ==> is_alnum(#[trigger] x[j])
}

/// A directive's name: one or more ASCII letters.
pub open spec fn valid_directive_name(x: Seq<char>) -> bool {
    x.len() > 0 && forall|j: int| 0 <= j < x.len() ==> is_alpha(#[trigger] x[j])
}

/// A node that the `basic` rule builds: a name, a quoted literal or a group.
pub open spec fn is_basic(v: NodeView) -> bool
    decreases v, 0int,
{
    match v {
        NodeView::Wildcard => true,
        NodeView::Name(x) => valid_name(x) && x != seq!['_'],
        NodeView::Anonymous(x) => valid_literal(x),
        NodeView::Group(cs) => forall|i: int| 0 <= i < cs.len() ==> is_child(#[trigger] cs[i]),
        _ => false,
    }
}

/// A node that the `quantified` rule builds.
pub open spec fn is_quantified(v: NodeView) -> bool
    decreases v, 1int,
{
    match v {
        NodeView::ZeroOrMore(b) => is_basic(*b),
        NodeView::OneOrMore(b) => is_basic(*b),
        NodeView::Optional(b) => is_basic(*b),
        _ => is_basic(v),
    }
}

/// A node that the `full-node` rule builds.
pub open spec fn is_full(v: NodeView) -> bool
    decreases v, 2int,
{
    match v {
        NodeView::Capture(l, q) => valid_name(l) && is_quantified(*q),
        NodeView::Anchor => true,
        NodeView::NegatedField(x) => valid_name(x),
        _ => is_quantified(v),
    }
}

/// A child that a group holds: a full node or a directive of capture arguments.
pub open spec fn is_child(v: NodeView) -> bool
    decreases v, 3int,
{
    match v {
        NodeView::Directive(n, args) => valid_directive_name(n) && forall|i: int|
            0 <= i < args.len() ==> (#[trigger] args[i] matches ComponentView::Capture(l)
                && valid_name(l)),
        _ => is_full(v),
    }
}

/// A character that can start the text of a full node.
pub open spec fn starts_node(c: char) -> bool {
    is_ident_start(c) || c == '"' || c == '(' || c == '.' || c == '!'
}

/// What may follow the text of a child inside a group: the end, the group's
/// `)`, a directive, or one space and the next child.
pub open spec fn follows(k: Seq<char>) -> bool {
    k.len() == 0 || k[0] == ')' || k[0] == '#' || (k[0] == ' ' && k.len() > 1 && starts_node(
        k[1],
    ))
}

pub open spec fn trim1(k: Seq<char>) -> Seq<char> {
    if starts_with(k, ' ') {
        k.drop_first()
    } else {
        k
    }
}

/// A node whose `captured` or `quantified` parse leaves the whitespace after it
/// in place; only the `full-node` rule around it skips that.
pub open spec fn open_end(v: NodeView) -> bool {
    v is Capture || v is ZeroOrMore || v is OneOrMore || v is Optional
}

proof fn lemma_skip_ws_here(t: Seq<char>)
    requires
        t.len() == 0 || !in_class(t[0], CharClass::Space),
    ensures
        skip_ws(t) == t,
{
}

proof fn lemma_skip_ws_follows(k: Seq<char>)
    requires
        follows(k),
    ensures
        skip_ws(k) == trim1(k),
        skip_trivia(k) == trim1(k),
        skip_trivia(trim1(k)) == trim1(k),
        k.len() == 0 || !in_class(k[0], CharClass::IdentTail),
{
    if starts_with(k, ' ') {
        assert(k.drop_first()[0] == k[1]);
        lemma_skip_ws_here(k.drop_first());
        assert(skip_trivia(k.drop_first()) == k.drop_first());
    }
}

proof fn lemma_render_first(v: NodeView)
    requires
        is_child(v),
    ensures
        render(v).len() > 0,
        v is Directive ==> render(v)[0] == '#',
        !(v is Directive) ==> starts_node(render(v)[0]),
    decreases v,
{
    match v {
        NodeView::Capture(l, q) => {
            lemma_render_first(*q);
        },
        NodeView::ZeroOrMore(b) => {
            lemma_render_first(*b);
        },
        NodeView::OneOrMore(b) => {
            lemma_render_first(*b);
        },
        NodeView::Optional(b) => {
            lemma_render_first(*b);
        },
        _ => {},
    }
}

proof fn lemma_string_then(x: Seq<char>, k: Seq<char>)
    requires
        valid_literal(x),
    ensures
        spec_string(seq!['"'] + x + seq!['"'] + k) == Parsed::Done(k, x),
{
    let q = seq!['"'];
    let t = q + x + q + k;
    assert(t.drop_first() =~= x + (q + k));
    assert forall|j: int| 0 <= j < x.len() implies in_class(#[trigger] x[j], CharClass::Alnum) by {
        assert(is_alnum(x[j]));
    }
    lemma_skip_class_prefix(x, q + k, CharClass::Alnum);
    let rest = q + k;
    assert(rest[0] == '"');
    assert(skip_class(rest, CharClass::Alnum) == rest);
    assert(t.subrange(1, t.len() - rest.len()) =~= x);
    assert(rest.drop_first() =~= k);
}

#[verifier::rlimit(40)]
proof fn lemma_args_round_trip(args: Seq<ComponentView>, i: int, k: Seq<char>)
    requires
        0 <= i <= args.len(),
        forall|j: int|
            0 <= j < args.len() ==> (#[trigger] args[j] matches ComponentView::Capture(l)
                && valid_name(l)),
    ensures
        spec_directive_args(render_args(args, i) + seq![')'] + k) == Parsed::Done(
            k,
            args.subrange(i, args.len() as int),
        ),
        spec_directive_args(trim1(render_args(args, i) + seq![')'] + k)) == Parsed::Done(
            k,
            args.subrange(i, args.len() as int),
        ),
    decreases args.len() - i,
{
    let x = render_args(args, i) + seq![')'] + k;
    if i == args.len() {
        assert(x =~= seq![')'] + k);
        assert(x.drop_first() =~= k);
        assert(args.subrange(i, args.len() as int) =~= Seq::<ComponentView>::empty());
    } else {
        lemma_args_round_trip(args, i + 1, k);
        let l = args[i]->Capture_0;
        let rest = render_args(args, i + 1) + seq![')'] + k;
        let y = seq!['@'] + l + rest;
        assert(x =~= seq![' '] + y);
        assert(x.drop_first() =~= y);
        assert(y[0] == '@');
        lemma_skip_ws_here(y);
        assert(skip_ws(x) == y);
        assert(y.drop_first() =~= l + rest);
        // the text after the label
        if i + 1 < args.len() {
            let l2 = args[i + 1]->Capture_0;
            assert(rest =~= seq![' '] + (seq!['@'] + l2 + render_args(args, i + 2) + seq![')'] + k));
            assert(rest[0] == ' ');
            assert(rest.drop_first()[0] == '@');
            lemma_skip_ws_here(rest.drop_first());
        } else {
            assert(rest =~= seq![')'] + k);
            lemma_skip_ws_here(rest);
        }
        assert(skip_ws(rest) == trim1(rest));
        lemma_identifier_then(l, rest);
        assert(spec_capture_label(y) == Parsed::Done(rest, l));
        assert(spec_directive_argument(x) == Parsed::Done(
            trim1(rest),
            ComponentView::Capture(l),
        ));
        assert(spec_directive_argument(y) == Parsed::Done(
            trim1(rest),
            ComponentView::Capture(l),
        ));
        assert(seq![ComponentView::Capture(l)] + args.subrange(i + 1, args.len() as int)
            =~= args.subrange(i, args.len() as int));
    }
}

#[verifier::rlimit(40)]
proof fn lemma_directive_round_trip(v: NodeView, k: Seq<char>)
    requires
        is_child(v),
        v is Directive,
    ensures
        spec_directive(render(v) + k) == Parsed::Done(k, v),
        spec_node(render(v) + k) is Fail,
{
    let n = v->Directive_0;
    let args = v->Directive_1;
    let after = render_args(args, 0) + seq![')'] + k;
    let t = render(v) + k;
    assert(t =~= seq!['#'] + (n + (seq!['!'] + after)));
    assert(t.drop_first() =~= n + (seq!['!'] + after));
    assert forall|j: int| 0 <= j < n.len() implies in_class(#[trigger] n[j], CharClass::Alpha) by {
        assert(is_alpha(n[j]));
    }
    lemma_skip_class_prefix(n, seq!['!'] + after, CharClass::Alpha);
    assert((seq!['!'] + after)[0] == '!');
    assert(skip_class(seq!['!'] + after, CharClass::Alpha) == seq!['!'] + after);
    assert((seq!['!'] + after).drop_first() =~= after);
    assert(n + (seq!['!'] + after) =~= n + seq!['!'] + after);
    assert((n + (seq!['!'] + after)).subrange(0, n.len() as int) =~= n);
    assert(spec_directive_name(t) == Parsed::Done(after, n));
    lemma_args_round_trip(args, 0, k);
    assert(args.subrange(0, args.len() as int) =~= args);
    // The node parser refuses a text that starts with `#`.
    assert(t[0] == '#');
    lemma_skip_ws_here(t);
    assert(spec_basic(t) == Parsed::<NodeView>::Fail(t));
    assert(spec_quantified(t) is Fail);
    assert(spec_capture(t) is Fail);
    assert(spec_non_capturable(t) is Fail);
    assert(spec_node_choice(t) is Fail);
}

/// The text of the children of `vs` from index `i` on, without the separator
/// in front of the first of them.
pub open spec fn body_from(vs: Seq<NodeView>, i: int) -> Seq<char> {
    if 0 <= i < vs.len() {
        render(vs[i]) + render_from(vs, i + 1)
    } else {
        Seq::empty()
    }
}

proof fn lemma_render_from_body(vs: Seq<NodeView>, i: int)
    requires
        0 <= i <= vs.len(),
    ensures
        render_from(vs, i) == separator(vs, i) + body_from(vs, i) || i == vs.len(),
        i == vs.len() ==> render_from(vs, i) == Seq::<char>::empty(),
        i == vs.len() ==> body_from(vs, i) == Seq::<char>::empty(),
        i == 0 ==> render_from(vs, i) == body_from(vs, i),
{
    if i < vs.len() {
        assert(render_from(vs, i) =~= separator(vs, i) + body_from(vs, i));
        if i == 0 {
            assert(separator(vs, i) + body_from(vs, i) =~= body_from(vs, i));
        }
    }
}

/// A space in front of the children left to parse changes nothing, when the
/// next of them is a node that consumes input.
proof fn lemma_items_after_space(b: Seq<char>)
    requires
        b.len() > 0,
        b[0] != ')',
        spec_node(b) is Done,
        spec_node(b)->Done_0.len() < b.len(),
    ensures
        spec_group_items(seq![' '] + b) == spec_group_items(b),
{
    let sb = seq![' '] + b;
    assert(sb[0] == ' ');
    assert forall|j: int| 0 <= j < seq![' '].len() implies in_class(
        #[trigger] seq![' '][j],
        CharClass::Space,
    ) by {}
    lemma_node_after_ws(seq![' '], b);
    assert(spec_group_child(sb) == spec_node(b));
    assert(spec_group_child(b) == spec_node(b));
}

#[verifier::rlimit(40)]
proof fn lemma_basic_round_trip(v: NodeView, k: Seq<char>)
    requires
        is_basic(v),
        k.len() == 0 || !in_class(k[0], CharClass::IdentTail),
    ensures
        spec_basic(render(v) + k) == Parsed::Done(skip_ws(k), v),
    decreases v, 0int,
{
    let t = render(v) + k;
    lemma_render_first(v);
    assert(t[0] == render(v)[0]);
    match v {
        NodeView::Wildcard => {
            assert(t =~= seq!['_'] + k);
            assert(t.drop_first() =~= k);
            if k.len() > 0 {
                assert(t[1] == k[0]);
            }
        },
        NodeView::Name(x) => {
            if x[0] == '_' {
                if x.len() == 1 {
                    assert(x =~= seq!['_']);
                }
                assert(t[1] == x[1]);
            }
            lemma_identifier_then(x, k);
        },
        NodeView::Anonymous(x) => {
            assert(t =~= seq!['"'] + x + seq!['"'] + k);
            lemma_string_then(x, k);
        },
        NodeView::Group(cs) => {
            lemma_items_round_trip(cs, 0, k);
            lemma_render_from_body(cs, 0);
            assert(t =~= seq!['('] + (body_from(cs, 0) + seq![')'] + k));
            assert(t.drop_first() =~= body_from(cs, 0) + seq![')'] + k);
            assert(cs.subrange(0, cs.len() as int) =~= cs);
            assert(spec_anonymous(t) is Fail);
            assert(spec_group(t) == Parsed::Done(k, v));
        },
        _ => {},
    }
}

#[verifier::rlimit(40)]
proof fn lemma_quantified_round_trip(v: NodeView, k: Seq<char>)
    requires
        is_quantified(v),
        k.len() == 0 || !in_class(k[0], CharClass::IdentTail),
        !starts_with(skip_ws(k), '*'),
        !starts_with(skip_ws(k), '+'),
        !starts_with(skip_ws(k), '?'),
    ensures
        spec_quantified(render(v) + k) == Parsed::Done(
            if open_end(v) {
                k
            } else {
                skip_ws(k)
            },
            v,
        ),
    decreases v, 1int,
{
    match v {
        NodeView::ZeroOrMore(b) => {
            let k2 = seq!['*'] + k;
            lemma_basic_round_trip(*b, k2);
            assert(render(v) + k =~= render(*b) + k2);
            lemma_skip_ws_here(k2);
            assert(k2.drop_first() =~= k);
        },
        NodeView::OneOrMore(b) => {
            let k2 = seq!['+'] + k;
            lemma_basic_round_trip(*b, k2);
            assert(render(v) + k =~= render(*b) + k2);
            lemma_skip_ws_here(k2);
            assert(k2.drop_first() =~= k);
        },
        NodeView::Optional(b) => {
            let k2 = seq!['?'] + k;
            lemma_basic_round_trip(*b, k2);
            assert(render(v) + k =~= render(*b) + k2);
            lemma_skip_ws_here(k2);
            assert(k2.drop_first() =~= k);
        },
        _ => {
            lemma_basic_round_trip(v, k);
        },
    }
}

#[verifier::rlimit(60)]
proof fn lemma_node_round_trip(v: NodeView, k: Seq<char>)
    requires
        is_full(v),
        follows(k),
    ensures
        spec_node(render(v) + k) == Parsed::Done(trim1(k), v),
    decreases v, 2int,
{
    let t = render(v) + k;
    lemma_render_first(v);
    assert(t[0] == render(v)[0]);
    assert(skip_trivia(t) == t);
    lemma_skip_ws_follows(k);
    lemma_skip_ws_here(t);
    let r = trim1(k);
    if k.len() > 0 && k[0] == ' ' {
        assert(r[0] == k[1]);
    }
    match v {
        NodeView::Capture(l, q) => {
            let k2 = seq!['@'] + l + k;
            assert(t =~= render(*q) + k2);
            lemma_skip_ws_here(k2);
            lemma_quantified_round_trip(*q, k2);
            assert(k2.drop_first() =~= l + k);
            lemma_identifier_then(l, k);
            assert(spec_capture_label(if open_end(*q) { k2 } else { skip_ws(k2) }) == Parsed::Done(k, l));
            assert(spec_capture(t) == Parsed::Done(k, v));
        },
        NodeView::Anchor => {
            assert(spec_basic(t) == Parsed::<NodeView>::Fail(t));
            assert(t.drop_first() =~= k);
            assert(spec_non_capturable(t) == Parsed::Done(r, v));
        },
        NodeView::NegatedField(x) => {
            assert(spec_basic(t) == Parsed::<NodeView>::Fail(t));
            assert(t.drop_first() =~= x + k);
            lemma_identifier_then(x, k);
            assert(spec_non_capturable(t) == Parsed::Done(r, v));
        },
        _ => {
            lemma_quantified_round_trip(v, k);
            assert(spec_capture(t) == Parsed::Done(if open_end(v) { k } else { r }, v));
        },
    }
}

#[verifier::rlimit(40)]
proof fn lemma_items_round_trip(vs: Seq<NodeView>, i: int, k: Seq<char>)
    requires
        0 <= i <= vs.len(),
        forall|j: int| 0 <= j < vs.len() ==> is_child(#[trigger] vs[j]),
    ensures
        spec_group_items(body_from(vs, i) + seq![')'] + k) == Parsed::Done(
            k,
            vs.subrange(i, vs.len() as int),
        ),
    decreases vs, vs.len() - i,
{
    let t = body_from(vs, i) + seq![')'] + k;
    if i == vs.len() {
        assert(t =~= seq![')'] + k);
        assert(t.drop_first() =~= k);
        assert(vs.subrange(i, vs.len() as int) =~= Seq::<NodeView>::empty());
    } else {
        let v = vs[i];
        let kk = render_from(vs, i + 1) + seq![')'] + k;
        assert(t =~= render(v) + kk);
        lemma_render_first(v);
        assert(t[0] == render(v)[0]);
        lemma_items_round_trip(vs, i + 1, k);
        lemma_render_from_body(vs, i + 1);
        let b = body_from(vs, i + 1) + seq![')'] + k;
        if i + 1 < vs.len() {
            lemma_render_first(vs[i + 1]);
            assert(b =~= render(vs[i + 1]) + (render_from(vs, i + 2) + seq![')'] + k));
            assert(b[0] == render(vs[i + 1])[0]);
            if vs[i + 1] is Directive {
                assert(kk =~= b);
            } else {
                assert(kk =~= seq![' '] + b);
                assert(kk.drop_first() =~= b);
                assert(kk[1] == b[0]);
            }
        } else {
            assert(kk =~= b);
            assert(b =~= seq![')'] + k);
        }
        assert(follows(kk));
        if v is Directive {
            lemma_directive_round_trip(v, kk);
            assert(spec_group_child(t) == Parsed::Done(kk, v));
        } else {
            lemma_node_round_trip(v, kk);
        }
        if i + 1 < vs.len() && !(vs[i + 1] is Directive) {
            lemma_next_child_consumes(vs, i + 1, k);
            lemma_items_after_space(b);
        }
        assert(seq![v] + vs.subrange(i + 1, vs.len() as int) =~= vs.subrange(i, vs.len() as int));
    }
}

/// The child at index `i` is parsed as a node that consumes input.
#[verifier::rlimit(40)]
proof fn lemma_next_child_consumes(vs: Seq<NodeView>, i: int, k: Seq<char>)
    requires
        0 <= i < vs.len(),
        forall|j: int| 0 <= j < vs.len() ==> is_child(#[trigger] vs[j]),
        !(vs[i] is Directive),
    ensures
        spec_node(body_from(vs, i) + seq![')'] + k) is Done,
        spec_node(body_from(vs, i) + seq![')'] + k)->Done_0.len() < (body_from(vs, i) + seq![
            ')',
        ] + k).len(),
    decreases vs, vs.len() - i, 
{
    let w = vs[i];
    let b = body_from(vs, i) + seq![')'] + k;
    let k3 = render_from(vs, i + 1) + seq![')'] + k;
    assert(b =~= render(w) + k3);
    lemma_render_first(w);
    lemma_render_from_body(vs, i + 1);
    if i + 1 < vs.len() {
        lemma_render_first(vs[i + 1]);
        if !(vs[i + 1] is Directive) {
            assert(k3 =~= seq![' '] + (body_from(vs, i + 1) + seq![')'] + k));
        } else {
            assert(k3 =~= body_from(vs, i + 1) + seq![')'] + k);
        }
    } else {
        assert(k3 =~= seq![')'] + k);
    }
    assert(follows(k3));
    lemma_node_round_trip(w, k3);
}

/// Writing a pattern that the node grammar builds back as text, and parsing
/// that text as a pattern, gives the same pattern with no input left over.
pub proof fn law_render_round_trip(v: NodeView)
    requires
        is_full(v),
    ensures
        spec_pattern(render(v)) == Parsed::Done(Seq::<char>::empty(), v),
{
    let e = Seq::<char>::empty();
    lemma_node_round_trip(v, e);
    assert(render(v) + e =~= render(v));
}

/// A group of names, written `(` then the names separated by single spaces
/// then `)`, parses to a group of those names in their order, whatever text
/// follows it; with no names it is the empty group. (A name that is `_`
/// alone is not among them: written out, that is the wildcard.)
pub proof fn law_group_of_names(vs: Seq<NodeView>, t: Seq<char>)
    requires
        forall|i: int|
            0 <= i < vs.len() ==> (#[trigger] vs[i] matches NodeView::Name(x) && valid_name(x)
                && x != seq!['_']),
    ensures
        render(NodeView::Group(vs)) == seq!['('] + render_from(vs, 0) + seq![')'],
        forall|i: int| 0 < i < vs.len() ==> separator(vs, i) == seq![' '],
        spec_group(render(NodeView::Group(vs)) + t) == Parsed::Done(t, NodeView::Group(vs)),
{
    assert forall|i: int| 0 <= i < vs.len() implies is_child(#[trigger] vs[i]) by {
        assert(is_basic(vs[i]));
    }
    lemma_items_round_trip(vs, 0, t);
    lemma_render_from_body(vs, 0);
    let u = render(NodeView::Group(vs)) + t;
    assert(u =~= seq!['('] + (body_from(vs, 0) + seq![')'] + t));
    assert(u.drop_first() =~= body_from(vs, 0) + seq![')'] + t);
    assert(vs.subrange(0, vs.len() as int) =~= vs);
}

} // verus!
