//! The lexer: from source characters to spanned tokens.

use vstd::prelude::*;
use vstd::string::*;
use std::ops::Range;
use crate::recovery_err::{Diagnostic, ParseState, RecoveredError};
use crate::token::{FromStrSpan, Keyword, TokSpan, TokSpanView, Token, TokenView, views};
use crate::Annotation;

verus! {

/// The character classes that the lexer takes runs of.
#[derive(Clone, Copy, Debug, PartialEq, Eq, Structural)]
pub enum CharClass {
    /// A blank, a tab, a carriage return or a line feed.
    Space,
    /// A letter, a digit or an underscore.
    IdentChar,
    /// Anything but a backtick.
    NotBacktick,
    /// Anything but a carriage return or a line feed.
    NotLineEnd,
}

/// Whether `c` is a letter of the basic Latin alphabet.
pub open spec fn is_alpha(c: char) -> bool {
    ('a' <= c && c <= 'z') || ('A' <= c && c <= 'Z')
}

/// Whether `c` is a decimal digit.
pub open spec fn is_digit(c: char) -> bool {
    '0' <= c && c <= '9'
}

/// Whether an identifier may start with `c`: a letter or an underscore.
pub open spec fn is_ident_start(c: char) -> bool {
    is_alpha(c) || c == '_'
}

/// Whether `c` is one of the separators `( ) { } , . : #`.
pub open spec fn is_separator(c: char) -> bool {
    c == '(' || c == ')' || c == '{' || c == '}' || c == ',' || c == '.' || c == ':' || c == '#'
}

impl CharClass {
    /// Whether `c` belongs to the class.
    pub open spec fn accepts(self, c: char) -> bool {
        match self {
            CharClass::Space => c == ' ' || c == '\t' || c == '\r' || c == '\n',
            CharClass::IdentChar => is_ident_start(c) || is_digit(c),
            CharClass::NotBacktick => c != '`',
            CharClass::NotLineEnd => c != '\r' && c != '\n',
        }
    }

    fn test(self, c: char) -> (b: bool)
        ensures
            b == self.accepts(c),
    {
        match self {
            CharClass::Space => c == ' ' || c == '\t' || c == '\r' || c == '\n',
            CharClass::IdentChar => test_ident_start(c) || ('0' <= c && c <= '9'),
            CharClass::NotBacktick => c != '`',
            CharClass::NotLineEnd => c != '\r' && c != '\n',
        }
    }
}

fn test_ident_start(c: char) -> (b: bool)
    ensures
        b == is_ident_start(c),
{
    ('a' <= c && c <= 'z') || ('A' <= c && c <= 'Z') || c == '_'
}

fn test_separator(c: char) -> (b: bool)
    ensures
        b == is_separator(c),
{
    c == '(' || c == ')' || c == '{' || c == '}' || c == ',' || c == '.' || c == ':' || c == '#'
}

/// Where the longest run of characters of `class` that starts at `pos` ends.
pub open spec fn run_end(src: Seq<char>, pos: int, class: CharClass) -> int
    decreases src.len() - pos,
{
    if 0 <= pos < src.len() && class.accepts(src[pos]) {
        run_end(src, pos + 1, class)
    } else {
        pos
    }
}

/// A run ends inside the text, holds only characters of its class, and cannot be
/// made longer.
pub proof fn lemma_run_end(src: Seq<char>, pos: int, class: CharClass)
    requires
        0 <= pos <= src.len(),
    ensures
        pos <= run_end(src, pos, class) <= src.len(),
        forall|i: int| pos <= i < run_end(src, pos, class) ==> class.accepts(#[trigger] src[i]),
        run_end(src, pos, class) < src.len() ==> !class.accepts(src[run_end(src, pos, class)]),
    decreases src.len() - pos,
{
    if pos < src.len() && class.accepts(src[pos]) {
        lemma_run_end(src, pos + 1, class);
    }
}

fn scan_run(src: &[char], pos: usize, class: CharClass) -> (end: usize)
    requires
        pos <= src@.len(),
    ensures
        end == run_end(src@, pos as int, class),
        pos <= end <= src@.len(),
{
    let mut i: usize = pos;
    while i < src.len() && class.test(src[i])
        invariant
            pos <= i <= src@.len(),
            run_end(src@, pos as int, class) == run_end(src@, i as int, class),
        decreases src@.len() - i,
    {
        i += 1;
    }
    i
}

/// Where the text of a line comment ends, when that text starts at `from`.
///
/// The text runs up to the next line ending or the end of the input.  A carriage
/// return that no line feed follows is no line ending, and the comment rule does
/// not accept a comment that runs into one.
pub open spec fn comment_end(src: Seq<char>, from: int) -> Option<int> {
    let e = run_end(src, from, CharClass::NotLineEnd);
    if e < src.len() && src[e] == '\r' && !(e + 1 < src.len() && src[e + 1] == '\n') {
        None
    } else {
        Some(e)
    }
}

/// Whether `word` stands in `src` at `pos`.
pub open spec fn starts_with(src: Seq<char>, pos: int, word: Seq<char>) -> bool {
    pos + word.len() <= src.len() && src.subrange(pos, pos + word.len()) == word
}

/// The keyword that `text` spells, if any.  `struct` is accepted for `class`.
pub open spec fn keyword_of(text: Seq<char>) -> Option<Keyword> {
    if text == "fn"@ {
        Some(Keyword::Fn)
    } else if text == "if"@ {
        Some(Keyword::If)
    } else if text == "else"@ {
        Some(Keyword::Else)
    } else if text == "while"@ {
        Some(Keyword::While)
    } else if text == "for"@ {
        Some(Keyword::For)
    } else if text == "in"@ {
        Some(Keyword::In)
    } else if text == "class"@ {
        Some(Keyword::Class)
    } else if text == "struct"@ {
        Some(Keyword::Class)
    } else {
        None
    }
}

/// Every keyword is recognised from its own text.
pub proof fn lemma_keyword_of_text(keyword: Keyword)
    ensures
        keyword_of(keyword.text()) == Some(keyword),
{
    reveal_strlit("fn");
    reveal_strlit("if");
    reveal_strlit("else");
    reveal_strlit("while");
    reveal_strlit("for");
    reveal_strlit("in");
    reveal_strlit("class");
    assert("fn"@.len() == 2 && "if"@.len() == 2 && "in"@.len() == 2);
    assert("for"@.len() == 3 && "else"@.len() == 4);
    assert("while"@.len() == 5 && "class"@.len() == 5);
    assert("if"@[0] != "fn"@[0]);
    assert("in"@[1] != "if"@[1]);
    assert("in"@[0] != "fn"@[0]);
    assert("class"@[0] != "while"@[0]);
}

/// The token for a run of identifier characters: a keyword, or else an identifier.
pub open spec fn word_token(text: Seq<char>) -> TokenView {
    match keyword_of(text) {
        Some(k) => TokenView::K(k),
        None => TokenView::Ident(text),
    }
}

/// The lexical unit that starts at `pos`: its token, and where it ends.
///
/// Skipped regions are units too, with the token [`TokenView::Comment`].  Where no
/// rule accepts the character at `pos`, the unit is that one character, with the
/// token [`TokenView::Error`].
pub open spec fn unit_at(src: Seq<char>, pos: int) -> (TokenView, int)
    recommends
        0 <= pos < src.len(),
{
    let c = src[pos];
    if c == '/' && pos + 1 < src.len() && src[pos + 1] == '/' && comment_end(src, pos + 2) is Some {
        let e = comment_end(src, pos + 2)->0;
        (TokenView::Comment(src.subrange(pos, e)), e)
    } else if CharClass::Space.accepts(c) {
        let e = run_end(src, pos, CharClass::Space);
        (TokenView::Comment(src.subrange(pos, e)), e)
    } else if c == '`' && run_end(src, pos + 1, CharClass::NotBacktick) < src.len() {
        let e = run_end(src, pos + 1, CharClass::NotBacktick);
        (TokenView::Ident(src.subrange(pos + 1, e)), e + 1)
    } else if c == '=' {
        (TokenView::Op("="@), pos + 1)
    } else if is_separator(c) {
        (TokenView::Separator(c), pos + 1)
    } else if starts_with(src, pos, "@SequenceEntrypoint"@) {
        (TokenView::A(Annotation::SequenceEntrypoint), pos + "@SequenceEntrypoint"@.len())
    } else if is_ident_start(c) {
        let e = run_end(src, pos + 1, CharClass::IdentChar);
        (word_token(src.subrange(pos, e)), e)
    } else {
        (TokenView::Error, pos + 1)
    }
}

/// Every unit holds at least one character and ends inside the text.
pub proof fn lemma_unit_advances(src: Seq<char>, pos: int)
    requires
        0 <= pos < src.len(),
    ensures
        pos < unit_at(src, pos).1 <= src.len(),
{
    reveal_strlit("@SequenceEntrypoint");
    lemma_run_end(src, pos + 1, CharClass::NotBacktick);
    lemma_run_end(src, pos + 1, CharClass::IdentChar);
    lemma_run_end(src, pos + 1, CharClass::Space);
    if pos + 1 < src.len() {
        lemma_run_end(src, pos + 2, CharClass::NotLineEnd);
    }
}

/// The units of `src` from `pos` on, in order, each with its span.
pub open spec fn scan_from(src: Seq<char>, pos: int) -> Seq<TokSpanView>
    decreases src.len() - pos,
{
    if 0 <= pos < src.len() {
        let unit = unit_at(src, pos);
        proof {
            lemma_unit_advances(src, pos);
        }
        seq![TokSpanView { token: unit.0, span: Range { start: pos as usize, end: unit.1 as usize } }]
            + scan_from(src, unit.1)
    } else {
        Seq::empty()
    }
}

/// All the units of `src`, skipped regions included.
pub open spec fn scan(src: Seq<char>) -> Seq<TokSpanView> {
    scan_from(src, 0)
}

/// The units that the lexer emits: all but the skipped regions.
pub open spec fn emitted(units: Seq<TokSpanView>) -> Seq<TokSpanView> {
    units.filter(|u: TokSpanView| !(u.token is Comment))
}

/// The message of the diagnostic for a character that no rule accepts.
pub open spec fn unknown_character() -> Seq<char> {
    "Unknown (non-ASCII) character"@
}

/// The diagnostics that the lexer reports: one for each error unit, in order.
pub open spec fn reported(units: Seq<TokSpanView>) -> Seq<Diagnostic> {
    units.filter_map(
        |u: TokSpanView|
            if u.token is Error {
                Some((u.span, unknown_character()))
            } else {
                None
            },
    )
}

/// The tokens of `src`: what [`lex`] returns.
pub open spec fn lexed(src: Seq<char>) -> Seq<TokSpanView> {
    emitted(scan(src))
}

/// `String::push` of the standard library appends one character: the string is
/// afterwards what it was before, followed by `ch`.
pub assume_specification[ String::push ](s: &mut String, ch: char)
    ensures
        final(s)@ == old(s)@.push(ch),
;

/// The source characters as a vector.
pub fn chars_of(input: &str) -> (chars: Vec<char>)
    ensures
        chars@ == input@,
{
    let mut chars: Vec<char> = Vec::new();
    for c in it: input.chars()
        invariant
            chars@ == it.seq().take(it.index() as int),
            it.seq() == input@,
    {
        chars.push(c);
    }
    chars
}

fn text_of(src: &[char], start: usize, end: usize) -> (text: String)
    requires
        start <= end <= src@.len(),
    ensures
        text@ == src@.subrange(start as int, end as int),
{
    let mut text = String::new();
    let mut i: usize = start;
    while i < end
        invariant
            start <= i <= end <= src@.len(),
            text@ == src@.subrange(start as int, i as int),
        decreases end - i,
    {
        text.push(src[i]);
        i += 1;
        assert(src@.subrange(start as int, i as int) == src@.subrange(start as int, i - 1).push(
            src@[i - 1],
        ));
    }
    text
}

fn text_is(src: &[char], start: usize, end: usize, word: &str) -> (b: bool)
    requires
        start <= end <= src@.len(),
    ensures
        b == (src@.subrange(start as int, end as int) == word@),
{
    let n = word.unicode_len();
    if end - start != n {
        return false;
    }
    let mut i: usize = 0;
    while i < n
        invariant
            i <= n,
            n == word@.len(),
            end - start == n,
            start <= end <= src@.len(),
            forall|j: int| 0 <= j < i ==> src@[start + j] == word@[j],
        decreases n - i,
    {
        if src[start + i] != word.get_char(i) {
            assert(src@.subrange(start as int, end as int)[i as int] != word@[i as int]);
            return false;
        }
        i += 1;
    }
    assert(src@.subrange(start as int, end as int) =~= word@);
    true
}

fn word_at(src: &[char], pos: usize, word: &str) -> (r: Option<usize>)
    requires
        pos <= src@.len(),
    ensures
        r is Some == starts_with(src@, pos as int, word@),
        r matches Some(end) ==> end == pos + word@.len(),
{
    let n = word.unicode_len();
    if n > src.len() - pos {
        None
    } else if text_is(src, pos, pos + n, word) {
        Some(pos + n)
    } else {
        None
    }
}

fn word_of(src: &[char], start: usize, end: usize) -> (token: Token)
    requires
        start <= end <= src@.len(),
    ensures
        token@ == word_token(src@.subrange(start as int, end as int)),
{
    if text_is(src, start, end, "fn") {
        Token::K(Keyword::Fn)
    } else if text_is(src, start, end, "if") {
        Token::K(Keyword::If)
    } else if text_is(src, start, end, "else") {
        Token::K(Keyword::Else)
    } else if text_is(src, start, end, "while") {
        Token::K(Keyword::While)
    } else if text_is(src, start, end, "for") {
        Token::K(Keyword::For)
    } else if text_is(src, start, end, "in") {
        Token::K(Keyword::In)
    } else if text_is(src, start, end, "class") {
        Token::K(Keyword::Class)
    } else if text_is(src, start, end, "struct") {
        Token::K(Keyword::Class)
    } else {
        Token::Ident(text_of(src, start, end))
    }
}

fn next_unit(src: &[char], pos: usize) -> (r: (Token, usize))
    requires
        pos < src@.len(),
    ensures
        r.0@ == unit_at(src@, pos as int).0,
        r.1 == unit_at(src@, pos as int).1,
        pos < r.1 <= src@.len(),
{
    proof {
        lemma_unit_advances(src@, pos as int);
    }
    let len = src.len();
    let c = src[pos];
    if c == '/' && pos + 1 < len && src[pos + 1] == '/' {
        let e = scan_run(src, pos + 2, CharClass::NotLineEnd);
        let dangling = e < len && src[e] == '\r' && !(e + 1 < len && src[e + 1] == '\n');
        if !dangling {
            return (Token::Comment(text_of(src, pos, e)), e);
        }
    }
    if CharClass::Space.test(c) {
        let e = scan_run(src, pos, CharClass::Space);
        return (Token::Comment(text_of(src, pos, e)), e);
    }
    if c == '`' {
        let e = scan_run(src, pos + 1, CharClass::NotBacktick);
        if e < len {
            return (Token::Ident(text_of(src, pos + 1, e)), e + 1);
        }
    }
    if c == '=' {
        return (Token::Op(String::from_str("=")), pos + 1);
    }
    if test_separator(c) {
        return (Token::Separator(c), pos + 1);
    }
    match word_at(src, pos, "@SequenceEntrypoint") {
        Some(end) => {
            return (Token::A(Annotation::SequenceEntrypoint), end);
        },
        None => {},
    }
    if test_ident_start(c) {
        let e = scan_run(src, pos + 1, CharClass::IdentChar);
        return (word_of(src, pos, e), e);
    }
    (Token::Error, pos + 1)
}

proof fn lemma_emitted_push(units: Seq<TokSpanView>, unit: TokSpanView)
    ensures
        emitted(units.push(unit)) == if unit.token is Comment {
            emitted(units)
        } else {
            emitted(units).push(unit)
        },
        reported(units.push(unit)) == if unit.token is Error {
            reported(units).push((unit.span, unknown_character()))
        } else {
            reported(units)
        },
{
    reveal(Seq::filter);
    assert(units.push(unit).drop_last() =~= units);
    assert(reported(units) + seq![(unit.span, unknown_character())] =~= reported(units).push(
        (unit.span, unknown_character()),
    ));
}

/// The scanner: all the units of `src` that are tokens, in order, with one
/// diagnostic for each character that no rule accepts.
pub fn lexer(src: &[char], errors: &mut ParseState) -> (tokens: Vec<TokSpan>)
    ensures
        views(tokens@) == lexed(src@),
        final(errors)@ == old(errors)@ + reported(scan(src@)),
{
    let mut tokens: Vec<TokSpan> = Vec::new();
    let mut pos: usize = 0;
    let ghost mut done: Seq<TokSpanView> = Seq::empty();
    proof {
        reveal(Seq::filter);
        assert(views(tokens@) =~= emitted(done));
        assert(errors@ =~= old(errors)@ + reported(done));
        assert(scan(src@) =~= done + scan_from(src@, 0));
    }
    while pos < src.len()
        invariant
            pos <= src@.len(),
            scan(src@) == done + scan_from(src@, pos as int),
            views(tokens@) == emitted(done),
            errors@ == old(errors)@ + reported(done),
        decreases src@.len() - pos,
    {
        let (token, end) = next_unit(src, pos);
        let ghost unit = TokSpanView { token: token@, span: Range { start: pos, end } };
        proof {
            lemma_emitted_push(done, unit);
            assert(done + scan_from(src@, pos as int) =~= done.push(unit) + scan_from(
                src@,
                end as int,
            ));
            assert(old(errors)@ + reported(done).push((unit.span, unknown_character()))
                =~= (old(errors)@ + reported(done)).push((unit.span, unknown_character())));
        }
        if matches!(token, Token::Error) {
            errors.report_error(
                RecoveredError(pos..end, String::from_str("Unknown (non-ASCII) character")),
            );
        }
        if token.not_comment() {
            let ghost before = tokens@;
            tokens.push(TokSpan::from_strspan(token, pos..end));
            assert(views(tokens@) =~= views(before).push(unit));
        }
        proof {
            done = done.push(unit);
        }
        pos = end;
    }
    assert(done + scan_from(src@, pos as int) =~= done);
    tokens
}

/// Lexes `input` into spanned tokens.
///
/// Whitespace and line comments are skipped.  A character that no rule accepts
/// becomes a [`Token::Error`] of its own, is reported to `errors`, and lexing
/// goes on behind it.  Spans are in characters.
pub fn lex(input: &str, errors: &mut ParseState) -> (tokens: Vec<TokSpan>)
    ensures
        views(tokens@) == lexed(input@),
        final(errors)@ == old(errors)@ + reported(scan(input@)),
{
    let chars = chars_of(input);
    lexer(chars.as_slice(), errors)
}

/// Lexes `input` as [`lex`] does, and returns the tokens without their spans.
pub fn lex_tokens(input: &str, errors: &mut ParseState) -> (tokens: Vec<Token>)
    ensures
        tokens@.map_values(|t: Token| t@) == lexed(input@).map_values(|t: TokSpanView| t.token),
        final(errors)@ == old(errors)@ + reported(scan(input@)),
{
    let spanned = lex(input, errors);
    let mut tokens: Vec<Token> = Vec::new();
    let mut i: usize = 0;
    while i < spanned.len()
        invariant
            i <= spanned@.len(),
            tokens@.len() == i,
            forall|j: int| 0 <= j < i ==> (#[trigger] tokens@[j])@ == spanned@[j]@.token,
        decreases spanned@.len() - i,
    {
        tokens.push(spanned[i].token.clone());
        i += 1;
    }
    assert(tokens@.map_values(|t: Token| t@) =~= views(spanned@).map_values(
        |t: TokSpanView| t.token,
    ));
    tokens
}

/// Whether the spans of `units` lie end to end from `from` to `to`, each of them
/// holding at least one character.
pub open spec fn tiles(units: Seq<TokSpanView>, from: int, to: int) -> bool
    decreases units.len(),
{
    if units.len() == 0 {
        from == to
    } else {
        &&& units[0].span.start == from
        &&& from < units[0].span.end
        &&& tiles(units.drop_first(), units[0].span.end as int, to)
    }
}

/// The pieces of `src` under the spans of `units`, put together in order.
pub open spec fn stitched(units: Seq<TokSpanView>, src: Seq<char>) -> Seq<char>
    decreases units.len(),
{
    if units.len() == 0 {
        Seq::empty()
    } else {
        src.subrange(units[0].span.start as int, units[0].span.end as int) + stitched(
            units.drop_first(),
            src,
        )
    }
}

/// Whether each span holds at least one character and ends before the next one starts.
pub open spec fn ascending(units: Seq<TokSpanView>) -> bool {
    &&& forall|i: int| 0 <= i < units.len() ==> (#[trigger] units[i]).span.start < units[i].span.end
    &&& forall|i: int, j: int|
        0 <= i < j < units.len() ==> (#[trigger] units[i]).span.end <= (#[trigger] units[j]).span.start
}

proof fn lemma_scan_from(src: Seq<char>, pos: int)
    requires
        0 <= pos <= src.len() <= usize::MAX,
    ensures
        tiles(scan_from(src, pos), pos, src.len() as int),
        stitched(scan_from(src, pos), src) == src.subrange(pos, src.len() as int),
        forall|i: int|
            0 <= i < scan_from(src, pos).len() ==> pos <= (#[trigger] scan_from(src, pos)[i]).span.start
                < scan_from(src, pos)[i].span.end <= src.len(),
        forall|i: int|
            0 <= i < scan_from(src, pos).len() ==> (#[trigger] scan_from(src, pos)[i].token matches TokenView::Comment(text)
                ==> text == src.subrange(
                scan_from(src, pos)[i].span.start as int,
                scan_from(src, pos)[i].span.end as int,
            )),
    decreases src.len() - pos,
{
    let units = scan_from(src, pos);
    if pos < src.len() {
        lemma_unit_advances(src, pos);
        let end = unit_at(src, pos).1;
        lemma_scan_from(src, end);
        let rest = scan_from(src, end);
        assert(units.drop_first() =~= rest);
        assert(src.subrange(pos, end) + src.subrange(end, src.len() as int) =~= src.subrange(
            pos,
            src.len() as int,
        ));
        assert forall|i: int| 0 <= i < units.len() implies pos <= (#[trigger] units[i]).span.start
            < units[i].span.end <= src.len() && (units[i].token matches TokenView::Comment(text)
            ==> text == src.subrange(units[i].span.start as int, units[i].span.end as int)) by {
            if i > 0 {
                assert(units[i] == rest[i - 1]);
            }
        }
    } else {
        assert(src.subrange(pos, src.len() as int) =~= Seq::<char>::empty());
    }
}

proof fn lemma_emitted_from(src: Seq<char>, pos: int)
    requires
        0 <= pos <= src.len() <= usize::MAX,
    ensures
        ascending(emitted(scan_from(src, pos))),
        forall|i: int|
            0 <= i < emitted(scan_from(src, pos)).len() ==> pos <= (#[trigger] emitted(
                scan_from(src, pos),
            )[i]).span.start && emitted(scan_from(src, pos))[i].span.end <= src.len(),
    decreases src.len() - pos,
{
    if pos < src.len() {
        lemma_unit_advances(src, pos);
        let unit = scan_from(src, pos)[0];
        let end = unit_at(src, pos).1;
        let rest = scan_from(src, end);
        lemma_emitted_from(src, end);
        assert(scan_from(src, pos) =~= seq![unit] + rest);
        Seq::filter_distributes_over_add(
            seq![unit],
            rest,
            |u: TokSpanView| !(u.token is Comment),
        );
        reveal(Seq::filter);
        lemma_emitted_push(Seq::empty(), unit);
        assert(seq![unit] =~= Seq::<TokSpanView>::empty().push(unit));
        let head = emitted(seq![unit]);
        let tail = emitted(rest);
        assert(emitted(scan_from(src, pos)) == head + tail);
        assert(head =~= if unit.token is Comment {
            Seq::<TokSpanView>::empty()
        } else {
            seq![unit]
        });
    } else {
        reveal(Seq::filter);
    }
}

/// Whether the token of `unit` is what the piece of `src` under its span spells.
///
/// An identifier stands for its own text, or, written raw, for the text between
/// two backticks.  A skipped region holds its text as it stands.  A character
/// that no rule accepts is one character.
pub open spec fn spells(src: Seq<char>, unit: TokSpanView) -> bool {
    let text = src.subrange(unit.span.start as int, unit.span.end as int);
    match unit.token {
        TokenView::K(keyword) => keyword_of(text) == Some(keyword),
        TokenView::Op(op) => text == op && op == "="@,
        TokenView::Ident(name) => (text == name && keyword_of(name) is None) || text == seq!['`']
            + name + seq!['`'],
        TokenView::Separator(c) => text == seq![c] && is_separator(c),
        TokenView::Comment(skipped) => text == skipped,
        TokenView::Error => text.len() == 1,
        TokenView::A(Annotation::SequenceEntrypoint) => text == "@SequenceEntrypoint"@,
    }
}

proof fn lemma_unit_spells(src: Seq<char>, pos: int)
    requires
        0 <= pos < src.len() <= usize::MAX,
    ensures
        spells(
            src,
            TokSpanView {
                token: unit_at(src, pos).0,
                span: Range { start: pos as usize, end: unit_at(src, pos).1 as usize },
            },
        ),
{
    reveal_strlit("=");
    lemma_unit_advances(src, pos);
    let end = unit_at(src, pos).1;
    let text = src.subrange(pos, end);
    let c = src[pos];
    if c == '/' && pos + 1 < src.len() && src[pos + 1] == '/' && comment_end(src, pos + 2) is Some {
    } else if CharClass::Space.accepts(c) {
    } else if c == '`' && run_end(src, pos + 1, CharClass::NotBacktick) < src.len() {
        let e = run_end(src, pos + 1, CharClass::NotBacktick);
        lemma_run_end(src, pos + 1, CharClass::NotBacktick);
        assert(text =~= seq!['`'] + src.subrange(pos + 1, e) + seq!['`']);
    } else if c == '=' {
        assert(text =~= "="@);
    } else if is_separator(c) {
        assert(text =~= seq![c]);
    } else if starts_with(src, pos, "@SequenceEntrypoint"@) {
    } else if is_ident_start(c) {
    } else {
    }
}

/// Every token says what its piece of the text spells: the units of a text, each
/// under its span, spell their tokens.
pub proof fn lemma_units_spell(src: Seq<char>)
    requires
        src.len() <= usize::MAX,
    ensures
        forall|i: int| 0 <= i < scan(src).len() ==> spells(src, #[trigger] scan(src)[i]),
{
    lemma_units_spell_from(src, 0);
}

proof fn lemma_units_spell_from(src: Seq<char>, pos: int)
    requires
        0 <= pos <= src.len() <= usize::MAX,
    ensures
        forall|i: int|
            0 <= i < scan_from(src, pos).len() ==> spells(src, #[trigger] scan_from(src, pos)[i]),
    decreases src.len() - pos,
{
    if pos < src.len() {
        lemma_unit_advances(src, pos);
        lemma_unit_spells(src, pos);
        let end = unit_at(src, pos).1;
        lemma_units_spell_from(src, end);
        let units = scan_from(src, pos);
        let rest = scan_from(src, end);
        assert forall|i: int| 0 <= i < units.len() implies spells(src, #[trigger] units[i]) by {
            if i > 0 {
                assert(units[i] == rest[i - 1]);
            }
        }
    }
}

/// The lexer gives no statement boundary: `;` is no separator, so that in the
/// tokens of a text recovery skips to the end of the input.
pub proof fn lemma_lexed_has_no_boundary(src: Seq<char>)
    requires
        src.len() <= usize::MAX,
    ensures
        forall|i: int|
            0 <= i < lexed(src).len() ==> (#[trigger] lexed(src)[i]).token != TokenView::Separator(
                ';',
            ),
{
    lemma_units_spell(src);
    let units = scan(src);
    let keep = |u: TokSpanView| !(u.token is Comment);
    assert forall|i: int| 0 <= i < lexed(src).len() implies (#[trigger] lexed(src)[i]).token
        != TokenView::Separator(';') by {
        units.lemma_filter_contains_rev(keep, lexed(src)[i]);
        let k = choose|k: int| 0 <= k < units.len() && units[k] == lexed(src)[i];
        assert(spells(src, units[k]));
    }
}

/// The units of a text cover it exactly: their spans lie end to end from its
/// first character to its last, none of them is empty, the pieces of text under
/// them put together give the text back, and a skipped region holds its piece of
/// the text as it stands.
pub proof fn lemma_units_cover(src: Seq<char>)
    requires
        src.len() <= usize::MAX,
    ensures
        tiles(scan(src), 0, src.len() as int),
        stitched(scan(src), src) == src,
        forall|i: int|
            0 <= i < scan(src).len() ==> (#[trigger] scan(src)[i].token matches TokenView::Comment(text)
                ==> text == src.subrange(
                scan(src)[i].span.start as int,
                scan(src)[i].span.end as int,
            )),
{
    lemma_scan_from(src, 0);
    assert(src.subrange(0, src.len() as int) =~= src);
}

/// The tokens of a text come in the order of the text: no span is empty, none
/// overlaps another, and all of them lie inside the text.
pub proof fn lemma_tokens_ascend(src: Seq<char>)
    requires
        src.len() <= usize::MAX,
    ensures
        ascending(lexed(src)),
        forall|i: int| 0 <= i < lexed(src).len() ==> (#[trigger] lexed(src)[i]).span.end <= src.len(),
{
    lemma_emitted_from(src, 0);
}

} // verus!
