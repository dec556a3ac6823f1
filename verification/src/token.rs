//! Tokens, spans, and the read-only cursor that the grammar walks.

use vstd::prelude::*;
use vstd::slice::slice_subrange;
use vstd::string::*;
use std::ops::Range;
use crate::recovery_err::ToRange;
use crate::Annotation;

verus! {

/// A value together with the half-open range of character offsets it came from.
pub type Spanned<T> = (T, Range<usize>);

/// The reserved words of the language.
#[derive(Clone, Copy, Debug, PartialEq, Eq, Hash, Structural)]
pub enum Keyword {
    Fn,
    If,
    Else,
    While,
    For,
    In,
    Class,
}

/// The smallest lexical unit.
#[derive(Debug, PartialEq)]
pub enum Token {
    /// A reserved word.
    K(Keyword),
    /// An operator, with its text.
    Op(String),
    /// An identifier, with its text (for a raw identifier, the text between the backticks).
    Ident(String),
    /// A single-character separator.
    Separator(char),
    /// A skipped region (whitespace or a line comment), with its text.
    Comment(String),
    /// One source character that no rule accepts.
    Error,
    /// An annotation tag.
    A(Annotation),
}

/// The mathematical value of a [`Token`]: texts are sequences of characters.
pub enum TokenView {
    K(Keyword),
    Op(Seq<char>),
    Ident(Seq<char>),
    Separator(char),
    Comment(Seq<char>),
    Error,
    A(Annotation),
}

impl Keyword {
    /// The keyword as it is written.
    pub open spec fn text(self) -> Seq<char> {
        match self {
            Keyword::Fn => "fn"@,
            Keyword::If => "if"@,
            Keyword::Else => "else"@,
            Keyword::While => "while"@,
            Keyword::For => "for"@,
            Keyword::In => "in"@,
            Keyword::Class => "class"@,
        }
    }
}

impl TokenView {
    /// The token as text.
    pub open spec fn text(self) -> Seq<char> {
        match self {
            TokenView::K(k) => k.text(),
            TokenView::Op(s) => s,
            TokenView::Ident(s) => s,
            TokenView::Separator(c) => seq![c],
            TokenView::Comment(s) => s,
            TokenView::Error => "Err"@,
            TokenView::A(Annotation::SequenceEntrypoint) => "@SequenceEntrypoint"@,
        }
    }
}

impl View for Token {
    type V = TokenView;

    open spec fn view(&self) -> TokenView {
        match *self {
            Token::K(k) => TokenView::K(k),
            Token::Op(s) => TokenView::Op(s@),
            Token::Ident(s) => TokenView::Ident(s@),
            Token::Separator(c) => TokenView::Separator(c),
            Token::Comment(s) => TokenView::Comment(s@),
            Token::Error => TokenView::Error,
            Token::A(a) => TokenView::A(a),
        }
    }
}

impl Token {
    /// Whether the token is emitted by the lexer, that is, whether it is anything
    /// but a skipped region.
    pub fn not_comment(&self) -> (b: bool)
        ensures
            b == !(self@ is Comment),
    {
        match self {
            Token::Comment(_) => false,
            _ => true,
        }
    }

    /// Whether two tokens have the same value.
    pub fn same(&self, other: &Token) -> (b: bool)
        ensures
            b == (self@ == other@),
    {
        match (self, other) {
            (Token::K(a), Token::K(b)) => *a == *b,
            (Token::Op(a), Token::Op(b)) => *a == *b,
            (Token::Ident(a), Token::Ident(b)) => *a == *b,
            (Token::Separator(a), Token::Separator(b)) => *a == *b,
            (Token::Comment(a), Token::Comment(b)) => *a == *b,
            (Token::Error, Token::Error) => true,
            (Token::A(a), Token::A(b)) => *a == *b,
            _ => false,
        }
    }

    /// The token as text: its lexeme where it has one, and `Err` for a character
    /// that no rule accepts.
    pub fn to_string(&self) -> (text: String)
        ensures
            text@ == self@.text(),
    {
        match self {
            Token::Op(s) => s.clone(),
            Token::Separator(c) => {
                let mut text = String::new();
                text.push(*c);
                assert(text@ =~= seq![*c]);
                text
            },
            Token::Ident(s) => s.clone(),
            Token::K(k) => match k {
                Keyword::Fn => String::from_str("fn"),
                Keyword::If => String::from_str("if"),
                Keyword::Else => String::from_str("else"),
                Keyword::While => String::from_str("while"),
                Keyword::For => String::from_str("for"),
                Keyword::In => String::from_str("in"),
                Keyword::Class => String::from_str("class"),
            },
            Token::Comment(s) => s.clone(),
            Token::Error => String::from_str("Err"),
            Token::A(a) => match a {
                Annotation::SequenceEntrypoint => String::from_str("@SequenceEntrypoint"),
            },
        }
    }

    /// The number of tokens a token stands for when it is matched against a stream.
    pub fn input_len(&self) -> (n: usize)
        ensures
            n == 1,
    {
        1
    }
}

impl Clone for Token {
    fn clone(&self) -> (t: Token)
        ensures
            t@ == self@,
    {
        match self {
            Token::K(k) => Token::K(*k),
            Token::Op(s) => Token::Op(s.clone()),
            Token::Ident(s) => Token::Ident(s.clone()),
            Token::Separator(c) => Token::Separator(*c),
            Token::Comment(s) => Token::Comment(s.clone()),
            Token::Error => Token::Error,
            Token::A(a) => Token::A(*a),
        }
    }
}

/// A token together with the span of source text it was read from.
#[derive(Debug, PartialEq)]
pub struct TokSpan {
    pub token: Token,
    pub span: Range<usize>,
}

/// The mathematical value of a [`TokSpan`].
pub struct TokSpanView {
    pub token: TokenView,
    pub span: Range<usize>,
}

impl View for TokSpan {
    type V = TokSpanView;

    open spec fn view(&self) -> TokSpanView {
        TokSpanView { token: self.token@, span: self.span }
    }
}

/// The values of a sequence of spanned tokens, in order.
pub open spec fn views(toks: Seq<TokSpan>) -> Seq<TokSpanView> {
    toks.map_values(|t: TokSpan| t@)
}

/// Making a spanned token from a token and the span it was read from.
pub trait FromStrSpan {
    fn from_strspan(token: Token, span: Range<usize>) -> (t: TokSpan)
        ensures
            t.token == token,
            t.span == span,
    ;
}

impl FromStrSpan for TokSpan {
    fn from_strspan(token: Token, span: Range<usize>) -> (t: TokSpan) {
        TokSpan { token, span }
    }
}

impl ToRange for TokSpan {
    open spec fn has_span(&self) -> bool {
        true
    }

    open spec fn span_of(&self) -> Range<usize> {
        self.span
    }

    /// As for a stream of this one token: empty where the token does not start
    /// before `next_start`.
    open spec fn consumed_span_of(&self, next_start: usize) -> Range<usize> {
        Range {
            start: self.span.start,
            end: if self.span.start < next_start {
                self.span.end
            } else {
                self.span.start
            },
        }
    }

    fn span(&self) -> (r: Range<usize>) {
        self.span.start..self.span.end
    }

    fn consumed_span(&self, next_start: usize) -> (r: Range<usize>) {
        if self.span.start < next_start {
            self.span.start..self.span.end
        } else {
            self.span.start..self.span.start
        }
    }
}

impl TokSpan {
    /// The token itself, without its position.
    pub fn fragment(&self) -> (t: &Token)
        ensures
            *t == self.token,
    {
        &self.token
    }
}

impl Clone for TokSpan {
    fn clone(&self) -> (t: TokSpan)
        ensures
            t@ == self@,
    {
        TokSpan { token: self.token.clone(), span: self.span.start..self.span.end }
    }
}

/// The mathematical value of a token stream: the tokens that are left, and the
/// character offset at which the stream stands.
///
/// The offset is what gives an empty stream a position.  For a stream that was
/// split off behind some tokens it is the start of its first token, or, when
/// nothing is left, the end of the last token before it.
pub struct Stream {
    pub toks: Seq<TokSpanView>,
    pub offset: usize,
}

/// The number of leading tokens of `toks` that start before `next_start`.
pub open spec fn leading_before(toks: Seq<TokSpanView>, next_start: usize) -> nat
    decreases toks.len(),
{
    if toks.len() == 0 || toks[0].span.start >= next_start {
        0
    } else {
        1 + leading_before(toks.drop_first(), next_start)
    }
}

/// The leading tokens that start before `next_start` are exactly those in front
/// of the first token that does not.
pub proof fn lemma_leading_before(toks: Seq<TokSpanView>, next_start: usize)
    ensures
        leading_before(toks, next_start) <= toks.len(),
        forall|i: int|
            0 <= i < leading_before(toks, next_start) ==> (#[trigger] toks[i]).span.start
                < next_start,
        leading_before(toks, next_start) < toks.len() ==> toks[leading_before(
            toks,
            next_start,
        ) as int].span.start >= next_start,
    decreases toks.len(),
{
    if toks.len() > 0 && toks[0].span.start < next_start {
        let rest = toks.drop_first();
        lemma_leading_before(rest, next_start);
        assert forall|i: int| 0 <= i < leading_before(toks, next_start) implies (
        #[trigger] toks[i]).span.start < next_start by {
            if i > 0 {
                assert(toks[i] == rest[i - 1]);
            }
        }
        if leading_before(toks, next_start) < toks.len() {
            assert(toks[leading_before(toks, next_start) as int] == rest[leading_before(
                rest,
                next_start,
            ) as int]);
        }
    }
}

impl Stream {
    /// Every offset that the stream can hand out leaves room for one more character.
    pub open spec fn bounded(self) -> bool {
        &&& self.offset < usize::MAX
        &&& forall|i: int|
            0 <= i < self.toks.len() ==> (#[trigger] self.toks[i]).span.start < usize::MAX
                && self.toks[i].span.end < usize::MAX
    }

    /// The span that the stream covers.  An empty stream covers the one character
    /// at its offset.
    pub open spec fn span(self) -> Range<usize> {
        Range {
            start: self.offset,
            end: if self.toks.len() == 0 {
                (self.offset + 1) as usize
            } else {
                self.toks.last().span.end
            },
        }
    }

    /// The span of the leading tokens that start before `next_start`: what a rule
    /// consumed, when `next_start` is the offset of the stream it left behind.
    pub open spec fn consumed_span(self, next_start: usize) -> Range<usize> {
        let n = leading_before(self.toks, next_start);
        Range {
            start: self.offset,
            end: if n == 0 {
                self.offset
            } else {
                self.toks[n - 1].span.end
            },
        }
    }

    /// The offset of what follows the first `n` tokens.
    pub open spec fn offset_after(self, n: int) -> usize {
        if n < self.toks.len() {
            self.toks[n].span.start
        } else if n == 0 {
            self.offset
        } else {
            self.toks[n - 1].span.end
        }
    }

    /// The first `n` tokens as a stream of their own.
    pub open spec fn prefix(self, n: int) -> Stream {
        Stream { toks: self.toks.take(n), offset: self.offset }
    }

    /// The stream behind the first `n` tokens.
    pub open spec fn suffix(self, n: int) -> Stream {
        Stream { toks: self.toks.skip(n), offset: self.offset_after(n) }
    }

    /// Whether the stream starts with a token of value `t`.
    pub open spec fn front_is(self, t: TokenView) -> bool {
        self.toks.len() > 0 && self.toks[0].token == t
    }

    /// Whether `self` is what is left of `whole` behind at least one of its tokens.
    pub open spec fn is_behind(self, whole: Stream) -> bool {
        self.toks.len() < whole.toks.len() && self == whole.suffix(
            whole.toks.len() - self.toks.len(),
        )
    }

    /// Whether `self` is `whole`, or what is left of it behind some of its tokens.
    pub open spec fn is_suffix_of(self, whole: Stream) -> bool {
        self == whole || self.is_behind(whole)
    }
}

/// What is left of what is left of a stream is left of that stream.
pub proof fn lemma_suffix_of_suffix(whole: Stream, a: int, b: int)
    requires
        0 <= a,
        0 <= b,
        a + b <= whole.toks.len(),
    ensures
        whole.suffix(a).suffix(b) == whole.suffix(a + b),
        whole.bounded() ==> whole.suffix(a).bounded(),
        a > 0 ==> whole.suffix(a).is_behind(whole),
{
    assert(whole.toks.skip(a).skip(b) =~= whole.toks.skip(a + b));
}

/// Being left of a stream is transitive, and what is left of a bounded stream is
/// bounded.
pub proof fn lemma_suffix_trans(inner: Stream, mid: Stream, whole: Stream)
    requires
        inner.is_suffix_of(mid),
        mid.is_suffix_of(whole),
    ensures
        inner.is_suffix_of(whole),
        inner.is_behind(mid) || mid.is_behind(whole) ==> inner.is_behind(whole),
        whole.bounded() ==> inner.bounded(),
{
    let a = whole.toks.len() - mid.toks.len();
    let b = mid.toks.len() - inner.toks.len();
    lemma_suffix_of_suffix(whole, a, b);
    lemma_suffix_of_suffix(whole, a + b, 0);
}

/// A read-only cursor over a token array.
#[derive(Clone, Copy, Debug)]
pub struct Tokens<'a> {
    pub tokens: &'a [TokSpan],
    pub offset: usize,
}

impl<'a> View for Tokens<'a> {
    type V = Stream;

    open spec fn view(&self) -> Stream {
        Stream { toks: views(self.tokens@), offset: self.offset }
    }
}

impl<'a> Tokens<'a> {
    /// A cursor at the start of `tokens`, standing at offset 0.
    pub fn new(tokens: &'a [TokSpan]) -> (t: Tokens<'a>)
        ensures
            t@ == (Stream { toks: views(tokens@), offset: 0 }),
            t.tokens@ == tokens@,
    {
        Tokens { tokens, offset: 0 }
    }

    /// The number of tokens that are left.
    pub fn input_len(&self) -> (n: usize)
        ensures
            n == self@.toks.len(),
    {
        self.tokens.len()
    }

    /// Whether the front token has the value of `t`; nothing is consumed.
    pub fn compare(&self, t: &Token) -> (b: bool)
        ensures
            b == self@.front_is(t@),
    {
        if self.tokens.len() == 0 {
            false
        } else {
            self.tokens[0].token.same(t)
        }
    }

    /// The same as [`Tokens::compare`]: tokens have no case.
    pub fn compare_no_case(&self, t: &Token) -> (b: bool)
        ensures
            b == self@.front_is(t@),
    {
        self.compare(t)
    }

    /// `Ok(count)` when at least `count` tokens are left, else how many are missing.
    pub fn slice_index(&self, count: usize) -> (r: Result<usize, usize>)
        ensures
            count <= self@.toks.len() ==> r == Ok::<usize, usize>(count),
            count > self@.toks.len() ==> r == Err::<usize, usize>(
                (count - self@.toks.len()) as usize,
            ),
    {
        if self.tokens.len() >= count {
            Ok(count)
        } else {
            Err(count - self.tokens.len())
        }
    }

    /// The first `count` tokens as a stream of their own, at the same offset.
    pub fn take(&self, count: usize) -> (t: Tokens<'a>)
        requires
            count <= self@.toks.len(),
        ensures
            t@ == self@.prefix(count as int),
            t.tokens@ == self.tokens@.take(count as int),
    {
        let t = Tokens { tokens: slice_subrange(self.tokens, 0, count), offset: self.offset };
        assert(t@.toks =~= self@.toks.take(count as int));
        t
    }

    /// Splits the stream behind its first `count` tokens, and returns what is left
    /// and the tokens taken, in this order.  Each half knows its own offset.
    pub fn take_split(&self, count: usize) -> (r: (Tokens<'a>, Tokens<'a>))
        requires
            count <= self@.toks.len(),
        ensures
            r.0@ == self@.suffix(count as int),
            r.1@ == self@.prefix(count as int),
            r.0.tokens@ == self.tokens@.skip(count as int),
            r.1.tokens@ == self.tokens@.take(count as int),
    {
        let len = self.tokens.len();
        let prefix = slice_subrange(self.tokens, 0, count);
        let suffix = slice_subrange(self.tokens, count, len);
        let suf_offset = if count < len {
            self.tokens[count].span.start
        } else if count == 0 {
            self.offset
        } else {
            self.tokens[count - 1].span.end
        };
        let rest = Tokens { tokens: suffix, offset: suf_offset };
        let taken = Tokens { tokens: prefix, offset: self.offset };
        assert(rest@.toks =~= self@.toks.skip(count as int));
        assert(taken@.toks =~= self@.toks.take(count as int));
        (rest, taken)
    }

    /// The position of the first token that `predicate` accepts, if there is one.
    pub fn position<P: Fn(&TokSpan) -> bool>(&self, predicate: P) -> (r: Option<usize>)
        requires
            forall|i: int|
                0 <= i < self.tokens@.len() ==> call_requires(predicate, (&#[trigger] self.tokens@[i],)),
        ensures
            match r {
                Some(n) => {
                    &&& n < self.tokens@.len()
                    &&& call_ensures(predicate, (&self.tokens@[n as int],), true)
                    &&& forall|i: int|
                        0 <= i < n ==> call_ensures(predicate, (&#[trigger] self.tokens@[i],), false)
                },
                None => forall|i: int|
                    0 <= i < self.tokens@.len() ==> call_ensures(
                        predicate,
                        (&#[trigger] self.tokens@[i],),
                        false,
                    ),
            },
    {
        let mut i: usize = 0;
        while i < self.tokens.len()
            invariant
                i <= self.tokens@.len(),
                forall|j: int|
                    0 <= j < self.tokens@.len() ==> call_requires(
                        predicate,
                        (&#[trigger] self.tokens@[j],),
                    ),
                forall|j: int|
                    0 <= j < i ==> call_ensures(predicate, (&#[trigger] self.tokens@[j],), false),
            decreases self.tokens@.len() - i,
        {
            if predicate(&self.tokens[i]) {
                return Some(i);
            }
            i += 1;
        }
        None
    }
}

impl<'a> ToRange for Tokens<'a> {
    /// An empty stream has a span where its offset leaves room for one more
    /// character.
    open spec fn has_span(&self) -> bool {
        self@.toks.len() == 0 ==> self.offset < usize::MAX
    }

    open spec fn span_of(&self) -> Range<usize> {
        self@.span()
    }

    open spec fn consumed_span_of(&self, next_start: usize) -> Range<usize> {
        self@.consumed_span(next_start)
    }

    /// The span that the stream covers; see [`Stream::span`].
    fn span(&self) -> (r: Range<usize>) {
        let start = self.offset;
        let len = self.tokens.len();
        let end = if len == 0 {
            start + 1
        } else {
            self.tokens[len - 1].span.end
        };
        start..end
    }

    /// The span of what was consumed from this stream by a rule that left a stream
    /// at offset `next_start` behind; see [`Stream::consumed_span`].
    fn consumed_span(&self, next_start: usize) -> (r: Range<usize>) {
        let start = self.offset;
        let mut end = start;
        let mut i: usize = 0;
        assert(self@.toks.skip(0) =~= self@.toks);
        while i < self.tokens.len() && self.tokens[i].span.start < next_start
            invariant
                i <= self.tokens.len(),
                leading_before(self@.toks, next_start) == i + leading_before(
                    self@.toks.skip(i as int),
                    next_start,
                ),
                end == if i == 0 {
                    start
                } else {
                    self@.toks[i - 1].span.end
                },
                start == self.offset,
            decreases self.tokens.len() - i,
        {
            end = self.tokens[i].span.end;
            proof {
                let s = self@.toks.skip(i as int);
                assert(s[0] == self@.toks[i as int]);
                assert(s.drop_first() =~= self@.toks.skip(i + 1));
            }
            i += 1;
        }
        proof {
            let s = self@.toks.skip(i as int);
            if i < self.tokens.len() {
                assert(s[0] == self@.toks[i as int]);
            }
            assert(leading_before(s, next_start) == 0);
        }
        start..end
    }
}

} // verus!
