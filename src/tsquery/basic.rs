use vstd::prelude::*;
use vstd::string::StrSliceExecFns;

verus! {

/// How a parse ended. `Done` carries the unconsumed input and the value read,
/// `Fail` the input at which no alternative matched.
pub enum Parsed<V> {
    Done(Seq<char>, V),
    Fail(Seq<char>),
}

/// The error of a failed parse.
#[derive(Debug, Clone, Copy, PartialEq, Eq)]
pub enum ParseError {
    /// No alternative matched at this character offset of the input.
    Syntax(usize),
}

/// The input from character offset `p` on.
pub open spec fn suffix_from(s: Seq<char>, p: int) -> Seq<char> {
    s.subrange(p, s.len() as int)
}

/// The text that a parse consumed from `t` when `rest` is left over.
pub open spec fn consumed(t: Seq<char>, rest: Seq<char>) -> Seq<char> {
    t.subrange(0, t.len() - rest.len())
}

/// `t` begins with the character `c`.
pub open spec fn starts_with(t: Seq<char>, c: char) -> bool {
    t.len() > 0 && t[0] == c
}

/// The classes of characters that the lexer skips over in runs.
#[derive(Clone, Copy)]
pub enum CharClass {
    /// Space, tab, carriage return, line feed.
    Space,
    /// ASCII letters.
    Alpha,
    /// ASCII letters and digits.
    Alnum,
    /// What may follow the first character of an identifier.
    IdentTail,
    /// Anything but a carriage return or a line feed.
    LineBody,
}

pub open spec fn is_alpha(c: char) -> bool {
    ('a' <= c && c <= 'z') || ('A' <= c && c <= 'Z')
}

pub open spec fn is_alnum(c: char) -> bool {
    is_alpha(c) || ('0' <= c && c <= '9')
}

pub open spec fn is_ident_start(c: char) -> bool {
    is_alpha(c) || c == '_'
}

pub open spec fn in_class(c: char, k: CharClass) -> bool {
    match k {
        CharClass::Space => c == ' ' || c == '\t' || c == '\r' || c == '\n',
        CharClass::Alpha => is_alpha(c),
        CharClass::Alnum => is_alnum(c),
        CharClass::IdentTail => is_alnum(c) || c == '_' || c == '-',
        CharClass::LineBody => c != '\r' && c != '\n',
    }
}

/// What is left of `t` after its longest prefix of characters of class `k`.
pub open spec fn skip_class(t: Seq<char>, k: CharClass) -> Seq<char>
    decreases t.len(),
{
    if t.len() > 0 && in_class(t[0], k) {
        skip_class(t.drop_first(), k)
    } else {
        t
    }
}

/// What is left of `t` after its leading whitespace.
pub open spec fn skip_ws(t: Seq<char>) -> Seq<char> {
    skip_class(t, CharClass::Space)
}

/// An identifier: a letter or `_`, then letters, digits, `_` and `-`, read greedily.
pub open spec fn spec_identifier(t: Seq<char>) -> Parsed<Seq<char>> {
    if t.len() > 0 && is_ident_start(t[0]) {
        let rest = skip_class(t.drop_first(), CharClass::IdentTail);
        Parsed::Done(rest, consumed(t, rest))
    } else {
        Parsed::Fail(t)
    }
}

/// A quoted literal: `"`, one or more ASCII letters or digits, `"`.
pub open spec fn spec_string(t: Seq<char>) -> Parsed<Seq<char>> {
    if starts_with(t, '"') {
        let rest = skip_class(t.drop_first(), CharClass::Alnum);
        if rest.len() + 1 == t.len() {
            Parsed::Fail(rest)
        } else if starts_with(rest, '"') {
            Parsed::Done(rest.drop_first(), t.subrange(1, t.len() - rest.len()))
        } else {
            Parsed::Fail(rest)
        }
    } else {
        Parsed::Fail(t)
    }
}

/// What is left of `t` after whitespace and comment lines, in any mix. A
/// comment line is `;` and the rest of the line: everything up to a carriage
/// return or a line feed, or up to the end of the input.
pub open spec fn skip_trivia(t: Seq<char>) -> Seq<char>
    decreases t.len(), 0int,
{
    if t.len() > 0 && in_class(t[0], CharClass::Space) {
        skip_trivia(t.drop_first())
    } else if starts_with(t, ';') {
        skip_comment_body(t.drop_first())
    } else {
        t
    }
}

/// What is left after the rest of a comment line, and the trivia after it.
pub open spec fn skip_comment_body(t: Seq<char>) -> Seq<char>
    decreases t.len(), 1int,
{
    if t.len() > 0 && in_class(t[0], CharClass::LineBody) {
        skip_comment_body(t.drop_first())
    } else {
        skip_trivia(t)
    }
}

/// A run of comment lines, each `;`, the rest of the line, then whitespace.
/// With no comment at the start it consumes nothing.
pub open spec fn spec_comment(t: Seq<char>) -> Seq<char> {
    if starts_with(t, ';') {
        skip_trivia(t)
    } else {
        t
    }
}

/// A result at character offsets of `s` agrees with the parse outcome `o`.
pub open spec fn text_agrees<'a>(
    r: Result<(usize, &'a str), ParseError>,
    o: Parsed<Seq<char>>,
    s: Seq<char>,
) -> bool {
    match r {
        Ok((e, x)) => e <= s.len() && o == Parsed::Done(suffix_from(s, e as int), x@),
        Err(ParseError::Syntax(at)) => at <= s.len() && o == Parsed::<Seq<char>>::Fail(
            suffix_from(s, at as int),
        ),
    }
}

/// A result of a public parser agrees with the outcome `o` on the input `s`:
/// the remainder is the input left over, a syntax error gives its offset.
pub open spec fn text_parsed<'a>(
    r: Result<(&'a str, &'a str), ParseError>,
    o: Parsed<Seq<char>>,
    s: Seq<char>,
) -> bool {
    match o {
        Parsed::Done(rest, x) => r is Ok && r->Ok_0.0@ == rest && r->Ok_0.1@ == x,
        Parsed::Fail(rest) => r matches Err(ParseError::Syntax(at)) && at == s.len() - rest.len(),
    }
}

/// One step along the input.
pub proof fn lemma_suffix_step(s: Seq<char>, p: int)
    requires
        0 <= p < s.len(),
    ensures
        suffix_from(s, p).len() > 0,
        suffix_from(s, p)[0] == s[p],
        suffix_from(s, p).drop_first() == suffix_from(s, p + 1),
{
    assert(suffix_from(s, p).drop_first() =~= suffix_from(s, p + 1));
}

/// The input from its start, and from its end.
pub proof fn lemma_suffix_end(s: Seq<char>)
    ensures
        suffix_from(s, s.len() as int).len() == 0,
        suffix_from(s, 0) == s,
{
    assert(suffix_from(s, 0) =~= s);
}

/// The text being parsed, with its characters decoded once.
pub(crate) struct Source<'a> {
    pub(crate) text: &'a str,
    pub(crate) chars: Vec<char>,
    pub(crate) len: usize,
}

impl<'a> Source<'a> {
    pub(crate) open spec fn view(&self) -> Seq<char> {
        self.text@
    }

    pub(crate) open spec fn wf(&self) -> bool {
        self.chars@ == self.text@ && self.len == self.chars@.len()
    }

    pub(crate) fn new(text: &'a str) -> (r: Source<'a>)
        ensures
            r.wf(),
            r@ == text@,
    {
        broadcast use vstd::string::axiom_spec_iter, vstd::string::next_postcondition;

        let mut chars: Vec<char> = Vec::new();
        let mut it = text.chars();
        loop
            invariant
                chars@ + vstd::std_specs::iter::IteratorSpec::remaining(&it) == text@,
            ensures
                chars@ == text@,
            decreases text@.len() - chars@.len(),
        {
            match it.next() {
                Some(c) => {
                    chars.push(c);
                    assert(chars@ + vstd::std_specs::iter::IteratorSpec::remaining(&it) =~= text@);
                },
                None => {
                    assert(chars@ =~= text@);
                    break;
                },
            }
        }
        let len = chars.len();
        Source { text, chars, len }
    }

    /// The character at offset `p`, if the text goes that far.
    pub(crate) fn peek(&self, p: usize) -> (r: Option<char>)
        requires
            self.wf(),
        ensures
            p < self@.len() ==> r == Some(self@[p as int]),
            p >= self@.len() ==> r is None,
    {
        if p < self.len {
            Some(self.chars[p])
        } else {
            None
        }
    }

    /// Whether the character at offset `p` is `c`.
    pub(crate) fn at(&self, p: usize, c: char) -> (r: bool)
        requires
            self.wf(),
            p <= self@.len(),
        ensures
            r == starts_with(suffix_from(self@, p as int), c),
    {
        proof {
            if p < self@.len() {
                lemma_suffix_step(self@, p as int);
            }
        }
        match self.peek(p) {
            Some(d) => d == c,
            None => false,
        }
    }

    /// The text between offsets `from` and `to`, borrowed from the source.
    pub(crate) fn slice(&self, from: usize, to: usize) -> (r: &'a str)
        requires
            self.wf(),
            from <= to <= self@.len(),
        ensures
            r@ == self@.subrange(from as int, to as int),
    {
        self.text.substring_char(from, to)
    }
}

// The parsers named `..._at` work at a character offset `p` of a `Source`;
// each agrees with the spec function of the same name.
pub(crate) fn in_class_exec(c: char, k: CharClass) -> (r: bool)
    ensures
        r == in_class(c, k),
{
    match k {
        CharClass::Space => c == ' ' || c == '\t' || c == '\r' || c == '\n',
        CharClass::Alpha => ('a' <= c && c <= 'z') || ('A' <= c && c <= 'Z'),
        CharClass::Alnum => ('a' <= c && c <= 'z') || ('A' <= c && c <= 'Z') || ('0' <= c && c
            <= '9'),
        CharClass::IdentTail => ('a' <= c && c <= 'z') || ('A' <= c && c <= 'Z') || ('0' <= c
            && c <= '9') || c == '_' || c == '-',
        CharClass::LineBody => c != '\r' && c != '\n',
    }
}

/// The offset after the run of characters of class `k` that starts at `p`.
pub(crate) fn scan(src: &Source, p: usize, k: CharClass) -> (q: usize)
    requires
        src.wf(),
        p <= src@.len(),
    ensures
        p <= q <= src@.len(),
        suffix_from(src@, q as int) == skip_class(suffix_from(src@, p as int), k),
        q < src@.len() ==> !in_class(src@[q as int], k),
{
    let mut q: usize = p;
    loop
        invariant
            src.wf(),
            p <= q <= src@.len(),
            skip_class(suffix_from(src@, q as int), k) == skip_class(suffix_from(src@, p as int), k),
        decreases src@.len() - q,
    {
        match src.peek(q) {
            Some(c) => {
                proof {
                    lemma_suffix_step(src@, q as int);
                }
                if in_class_exec(c, k) {
                    q = q + 1;
                } else {
                    return q;
                }
            },
            None => {
                proof {
                    lemma_suffix_end(src@);
                }
                return q;
            },
        }
    }
}

pub(crate) fn identifier_at<'a>(src: &Source<'a>, p: usize) -> (r: Result<(usize, &'a str), ParseError>)
    requires
        src.wf(),
        p <= src@.len(),
    ensures
        text_agrees(r, spec_identifier(suffix_from(src@, p as int)), src@),
{
    let ghost t = suffix_from(src@, p as int);
    match src.peek(p) {
        Some(c) => {
            proof {
                lemma_suffix_step(src@, p as int);
            }
            if ('a' <= c && c <= 'z') || ('A' <= c && c <= 'Z') || c == '_' {
                let q = scan(src, p + 1, CharClass::IdentTail);
                let x = src.slice(p, q);
                assert(consumed(t, suffix_from(src@, q as int)) =~= x@);
                Ok((q, x))
            } else {
                Err(ParseError::Syntax(p))
            }
        },
        None => Err(ParseError::Syntax(p)),
    }
}

pub(crate) fn string_at<'a>(src: &Source<'a>, p: usize) -> (r: Result<(usize, &'a str), ParseError>)
    requires
        src.wf(),
        p <= src@.len(),
    ensures
        text_agrees(r, spec_string(suffix_from(src@, p as int)), src@),
{
    let ghost t = suffix_from(src@, p as int);
    if !src.at(p, '"') {
        return Err(ParseError::Syntax(p));
    }
    proof {
        lemma_suffix_step(src@, p as int);
    }
    let q = scan(src, p + 1, CharClass::Alnum);
    if q == p + 1 {
        return Err(ParseError::Syntax(q));
    }
    if src.at(q, '"') {
        proof {
            lemma_suffix_step(src@, q as int);
        }
        let x = src.slice(p + 1, q);
        assert(t.subrange(1, t.len() - suffix_from(src@, q as int).len()) =~= x@);
        Ok((q + 1, x))
    } else {
        Err(ParseError::Syntax(q))
    }
}

/// The offset after the whitespace and comment lines that start at `p`.
pub(crate) fn trivia_at(src: &Source, p: usize) -> (q: usize)
    requires
        src.wf(),
        p <= src@.len(),
    ensures
        p <= q <= src@.len(),
        suffix_from(src@, q as int) == skip_trivia(suffix_from(src@, p as int)),
{
    let mut q: usize = p;
    loop
        invariant
            src.wf(),
            p <= q <= src@.len(),
            skip_trivia(suffix_from(src@, q as int)) == skip_trivia(suffix_from(src@, p as int)),
        decreases src@.len() - q,
    {
        match src.peek(q) {
            Some(c) => {
                proof {
                    lemma_suffix_step(src@, q as int);
                }
                if in_class_exec(c, CharClass::Space) {
                    q = q + 1;
                } else if c == ';' {
                    let end = scan(src, q + 1, CharClass::LineBody);
                    proof {
                        lemma_comment_body(suffix_from(src@, q + 1));
                    }
                    q = end;
                } else {
                    return q;
                }
            },
            None => {
                proof {
                    lemma_suffix_end(src@);
                }
                return q;
            },
        }
    }
}

pub(crate) fn comment_at(src: &Source, p: usize) -> (q: usize)
    requires
        src.wf(),
        p <= src@.len(),
    ensures
        p <= q <= src@.len(),
        suffix_from(src@, q as int) == spec_comment(suffix_from(src@, p as int)),
{
    if src.at(p, ';') {
        trivia_at(src, p)
    } else {
        p
    }
}

/// Parses an identifier: a letter or `_`, then letters, digits, `_` and `-`.
pub fn parse_identifier<'a>(i: &'a str) -> (r: Result<(&'a str, &'a str), ParseError>)
    ensures
        text_parsed(r, spec_identifier(i@), i@),
{
    let src = Source::new(i);
    proof {
        lemma_suffix_end(i@);
    }
    match identifier_at(&src, 0) {
        Ok((e, x)) => Ok((src.slice(e, src.len), x)),
        Err(err) => Err(err),
    }
}

/// Parses a quoted literal of letters and digits, yielding the text between the quotes.
pub fn parse_string<'a>(i: &'a str) -> (r: Result<(&'a str, &'a str), ParseError>)
    ensures
        text_parsed(r, spec_string(i@), i@),
{
    let src = Source::new(i);
    proof {
        lemma_suffix_end(i@);
    }
    match string_at(&src, 0) {
        Ok((e, x)) => Ok((src.slice(e, src.len), x)),
        Err(err) => Err(err),
    }
}

/// Skips a run of comment lines and the whitespace after each.
/// A comment line may end at the end of the input; the run never fails.
pub fn parse_comment<'a>(i: &'a str) -> (r: Result<(&'a str, ()), ParseError>)
    ensures
        r is Ok && r->Ok_0.0@ == spec_comment(i@),
{
    let src = Source::new(i);
    proof {
        lemma_suffix_end(i@);
    }
    let e = comment_at(&src, 0);
    Ok((src.slice(e, src.len), ()))
}

/// Skipping a class over `a + b`, where all of `a` is of that class, skips `a` whole.
pub proof fn lemma_skip_class_prefix(a: Seq<char>, b: Seq<char>, k: CharClass)
    requires
        forall|j: int| 0 <= j < a.len() ==> in_class(#[trigger] a[j], k),
    ensures
        skip_class(a + b, k) == skip_class(b, k),
    decreases a.len(),
{
    if a.len() > 0 {
        assert((a + b).drop_first() =~= a.drop_first() + b);
        assert((a + b)[0] == a[0]);
        lemma_skip_class_prefix(a.drop_first(), b, k);
    } else {
        assert(a + b =~= b);
    }
}

/// An identifier followed by text that cannot continue it is read whole,
/// leaving that text.
pub proof fn lemma_identifier_then(s: Seq<char>, r: Seq<char>)
    requires
        s.len() > 0,
        is_ident_start(s[0]),
        forall|j: int| 1 <= j < s.len() ==> in_class(#[trigger] s[j], CharClass::IdentTail),
        r.len() > 0 ==> !in_class(r[0], CharClass::IdentTail),
    ensures
        spec_identifier(s + r) == Parsed::Done(r, s),
{
    let tail = s.drop_first();
    assert forall|j: int| 0 <= j < tail.len() implies in_class(#[trigger] tail[j], CharClass::IdentTail) by {
        assert(tail[j] == s[j + 1]);
    }
    lemma_skip_class_prefix(tail, r, CharClass::IdentTail);
    assert((s + r).drop_first() =~= tail + r);
    assert((s + r)[0] == s[0]);
    assert(consumed(s + r, r) =~= s);
}

/// A text made of identifier characters after a letter or `_` is read as
/// an identifier whole, with nothing left over.
pub proof fn lemma_identifier_whole(s: Seq<char>)
    requires
        s.len() > 0,
        is_ident_start(s[0]),
        forall|j: int| 1 <= j < s.len() ==> in_class(#[trigger] s[j], CharClass::IdentTail),
    ensures
        spec_identifier(s) == Parsed::Done(Seq::<char>::empty(), s),
{
    lemma_identifier_then(s, Seq::<char>::empty());
    assert(s + Seq::<char>::empty() =~= s);
}

/// The rest of a comment line is its run of line characters.
pub proof fn lemma_comment_body(t: Seq<char>)
    ensures
        skip_comment_body(t) == skip_trivia(skip_class(t, CharClass::LineBody)),
    decreases t.len(),
{
    if t.len() > 0 && in_class(t[0], CharClass::LineBody) {
        lemma_comment_body(t.drop_first());
    }
}

/// Skipping trivia leaves a suffix of the input.
pub proof fn lemma_trivia_len(t: Seq<char>)
    ensures
        skip_trivia(t).len() <= t.len(),
        skip_comment_body(t).len() <= t.len(),
    decreases t.len(),
{
    if t.len() > 0 {
        lemma_trivia_len(t.drop_first());
    }
}

/// Whitespace in front of `t` changes nothing of what is left after trivia.
pub proof fn lemma_trivia_after_ws(ws: Seq<char>, t: Seq<char>)
    requires
        forall|j: int| 0 <= j < ws.len() ==> in_class(#[trigger] ws[j], CharClass::Space),
    ensures
        skip_trivia(ws + t) == skip_trivia(t),
    decreases ws.len(),
{
    if ws.len() > 0 {
        assert((ws + t)[0] == ws[0]);
        assert((ws + t).drop_first() =~= ws.drop_first() + t);
        lemma_trivia_after_ws(ws.drop_first(), t);
    } else {
        assert(ws + t =~= t);
    }
}

} // verus!
