//! The lexer: source text to tokens with 1-based line and column positions.
use vstd::prelude::*;

use crate::error::{spec_error, CompileError, SpecError};
use crate::text::{chars_of, push_char};

verus! {

/// The kind of a token.
#[derive(Debug, Clone, PartialEq, Eq)]
pub enum TokenKind {
    Int,
    Return,
    Print,
    Ident(String),
    Number(i32),
    Plus,
    Minus,
    Star,
    Slash,
    LParen,
    RParen,
    LBrace,
    RBrace,
    Semicolon,
    Eof,
}

/// A token with the line and column of its first character.
#[derive(Debug, Clone, PartialEq, Eq)]
pub struct Token {
    kind: TokenKind,
    line: usize,
    column: usize,
}

/// The mathematical content of a [`TokenKind`]: identifiers are character sequences.
pub enum SpecTokenKind {
    Int,
    Return,
    Print,
    Ident(Seq<char>),
    Number(i32),
    Plus,
    Minus,
    Star,
    Slash,
    LParen,
    RParen,
    LBrace,
    RBrace,
    Semicolon,
    Eof,
}

/// The mathematical content of a [`Token`].
pub struct SpecToken {
    pub kind: SpecTokenKind,
    pub line: nat,
    pub column: nat,
}

impl View for TokenKind {
    type V = SpecTokenKind;

    open spec fn view(&self) -> SpecTokenKind {
        match self {
            TokenKind::Int => SpecTokenKind::Int,
            TokenKind::Return => SpecTokenKind::Return,
            TokenKind::Print => SpecTokenKind::Print,
            TokenKind::Ident(s) => SpecTokenKind::Ident(s@),
            TokenKind::Number(n) => SpecTokenKind::Number(*n),
            TokenKind::Plus => SpecTokenKind::Plus,
            TokenKind::Minus => SpecTokenKind::Minus,
            TokenKind::Star => SpecTokenKind::Star,
            TokenKind::Slash => SpecTokenKind::Slash,
            TokenKind::LParen => SpecTokenKind::LParen,
            TokenKind::RParen => SpecTokenKind::RParen,
            TokenKind::LBrace => SpecTokenKind::LBrace,
            TokenKind::RBrace => SpecTokenKind::RBrace,
            TokenKind::Semicolon => SpecTokenKind::Semicolon,
            TokenKind::Eof => SpecTokenKind::Eof,
        }
    }
}

impl View for Token {
    type V = SpecToken;

    closed spec fn view(&self) -> SpecToken {
        SpecToken { kind: self.kind@, line: self.line as nat, column: self.column as nat }
    }
}

impl Token {
    /// The kind of the token.
    pub fn kind(&self) -> (k: &TokenKind)
        ensures
            k@ == self@.kind,
    {
        &self.kind
    }

    /// The line of the token's first character (1-based).
    pub fn line(&self) -> (l: usize)
        ensures
            l == self@.line,
    {
        self.line
    }

    /// The column of the token's first character (1-based).
    pub fn column(&self) -> (c: usize)
        ensures
            c == self@.column,
    {
        self.column
    }
}

impl TokenKind {
    /// Whether two token kinds are the same (identifiers and numbers by content).
    pub(crate) fn same_as(&self, other: &TokenKind) -> (b: bool)
        ensures
            b == (self@ == other@),
    {
        match (self, other) {
            (TokenKind::Int, TokenKind::Int) => true,
            (TokenKind::Return, TokenKind::Return) => true,
            (TokenKind::Print, TokenKind::Print) => true,
            (TokenKind::Ident(a), TokenKind::Ident(b)) => *a == *b,
            (TokenKind::Number(a), TokenKind::Number(b)) => *a == *b,
            (TokenKind::Plus, TokenKind::Plus) => true,
            (TokenKind::Minus, TokenKind::Minus) => true,
            (TokenKind::Star, TokenKind::Star) => true,
            (TokenKind::Slash, TokenKind::Slash) => true,
            (TokenKind::LParen, TokenKind::LParen) => true,
            (TokenKind::RParen, TokenKind::RParen) => true,
            (TokenKind::LBrace, TokenKind::LBrace) => true,
            (TokenKind::RBrace, TokenKind::RBrace) => true,
            (TokenKind::Semicolon, TokenKind::Semicolon) => true,
            (TokenKind::Eof, TokenKind::Eof) => true,
            _ => false,
        }
    }
}

/// The contents of a token vector.
pub open spec fn tokens_view(v: Seq<Token>) -> Seq<SpecToken> {
    v.map_values(|t: Token| t@)
}

/// The token of kind `kind` at `line`:`column`.
pub open spec fn spec_token(kind: SpecTokenKind, line: nat, column: nat) -> SpecToken {
    SpecToken { kind, line, column }
}

/// Classes of characters that the lexer reads in runs.
#[derive(Clone, Copy)]
pub enum CharClass {
    /// `0`..`9`
    Digit,
    /// letters, digits and `_`
    IdentPart,
    /// anything but a newline
    NotNewline,
}

pub open spec fn is_digit(c: char) -> bool {
    '0' <= c && c <= '9'
}

pub open spec fn is_ident_start(c: char) -> bool {
    ('a' <= c && c <= 'z') || ('A' <= c && c <= 'Z') || c == '_'
}

pub open spec fn in_class(c: char, class: CharClass) -> bool {
    match class {
        CharClass::Digit => is_digit(c),
        CharClass::IdentPart => is_ident_start(c) || is_digit(c),
        CharClass::NotNewline => c != '\n',
    }
}

/// The end of the run of `class` characters of `s` that starts at `i`.
pub open spec fn span_end(s: Seq<char>, i: nat, class: CharClass) -> nat
    decreases s.len() - i,
{
    if i < s.len() && in_class(s[i as int], class) {
        span_end(s, i + 1, class)
    } else {
        i
    }
}

/// The numeric value of a sequence of decimal digits.
pub open spec fn digits_value(t: Seq<char>) -> int
    decreases t.len(),
{
    if t.len() == 0 {
        0
    } else {
        10 * digits_value(t.drop_last()) + (t.last() as int - 48)
    }
}

/// The token kind of a word: a keyword or an identifier.
pub open spec fn word_kind(t: Seq<char>) -> SpecTokenKind {
    if t == "int"@ {
        SpecTokenKind::Int
    } else if t == "return"@ {
        SpecTokenKind::Return
    } else if t == "print"@ {
        SpecTokenKind::Print
    } else {
        SpecTokenKind::Ident(t)
    }
}

/// The token kind of a one-character token.
pub open spec fn single_kind(c: char) -> Option<SpecTokenKind> {
    if c == '+' {
        Some(SpecTokenKind::Plus)
    } else if c == '-' {
        Some(SpecTokenKind::Minus)
    } else if c == '*' {
        Some(SpecTokenKind::Star)
    } else if c == '(' {
        Some(SpecTokenKind::LParen)
    } else if c == ')' {
        Some(SpecTokenKind::RParen)
    } else if c == '{' {
        Some(SpecTokenKind::LBrace)
    } else if c == '}' {
        Some(SpecTokenKind::RBrace)
    } else if c == ';' {
        Some(SpecTokenKind::Semicolon)
    } else {
        None
    }
}

/// The message for a character that starts no token.
pub open spec fn unexpected_message(c: char) -> Seq<char> {
    "unexpected character '"@ + seq![c] + "'"@
}

/// `t` in front of the tokens of `rest`, or the error of `rest`.
pub open spec fn cons_token(t: SpecToken, rest: Result<Seq<SpecToken>, SpecError>) -> Result<
    Seq<SpecToken>,
    SpecError,
> {
    match rest {
        Ok(ts) => Ok(seq![t] + ts),
        Err(e) => Err(e),
    }
}

/// `ts` in front of the tokens of `rest`, or the error of `rest`.
pub open spec fn prepend_tokens(ts: Seq<SpecToken>, rest: Result<Seq<SpecToken>, SpecError>) -> Result<
    Seq<SpecToken>,
    SpecError,
> {
    match rest {
        Ok(more) => Ok(ts + more),
        Err(e) => Err(e),
    }
}

/// A token sequence as the lexer makes it: it ends with the only end-of-file
/// token, and every position is 1-based.
pub open spec fn tokens_well_formed(ts: Seq<SpecToken>) -> bool {
    &&& ts.len() > 0
    &&& ts.last().kind is Eof
    &&& forall|k: int| 0 <= k < ts.len() - 1 ==> !(#[trigger] ts[k].kind is Eof)
    &&& forall|k: int| 0 <= k < ts.len() ==> #[trigger] ts[k].line >= 1 && ts[k].column >= 1
}

pub proof fn lemma_span_end_bounds(s: Seq<char>, i: nat, class: CharClass)
    requires
        i <= s.len(),
    ensures
        i <= span_end(s, i, class) <= s.len(),
        forall|k: int| i <= k < span_end(s, i, class) ==> in_class(#[trigger] s[k], class),
        span_end(s, i, class) < s.len() ==> !in_class(s[span_end(s, i, class) as int], class),
    decreases s.len() - i,
{
    if i < s.len() && in_class(s[i as int], class) {
        lemma_span_end_bounds(s, i + 1, class);
    }
}

/// The tokens of `s` from index `i` on, the lexer standing at `line`:`column`.
pub open spec fn lex_from(s: Seq<char>, i: nat, line: nat, column: nat) -> Result<
    Seq<SpecToken>,
    SpecError,
>
    decreases s.len() - i,
{
    if i >= s.len() {
        Ok(seq![spec_token(SpecTokenKind::Eof, line, column)])
    } else {
        let c = s[i as int];
        if c == ' ' || c == '\t' || c == '\r' {
            lex_from(s, i + 1, line, column + 1)
        } else if c == '\n' {
            lex_from(s, i + 1, line + 1, 1)
        } else if c == '/' {
            if i + 1 < s.len() && s[i + 1int] == '/' {
                let e = span_end(s, i + 1, CharClass::NotNewline);
                proof {
                    lemma_span_end_bounds(s, i + 1, CharClass::NotNewline);
                }
                lex_from(s, e, line, column + (e - i) as nat)
            } else {
                cons_token(
                    spec_token(SpecTokenKind::Slash, line, column),
                    lex_from(s, i + 1, line, column + 1),
                )
            }
        } else if is_digit(c) {
            let e = span_end(s, i, CharClass::Digit);
            proof {
                lemma_span_end_bounds(s, i, CharClass::Digit);
            }
            let v = digits_value(s.subrange(i as int, e as int));
            if v > i64::MAX {
                Err(spec_error("integer literal is too large"@, line, column))
            } else if v > i32::MAX {
                Err(spec_error("integer literal must fit in a 32-bit signed int"@, line, column))
            } else {
                cons_token(
                    spec_token(SpecTokenKind::Number(v as i32), line, column),
                    lex_from(s, e, line, column + (e - i) as nat),
                )
            }
        } else if is_ident_start(c) {
            let e = span_end(s, i, CharClass::IdentPart);
            proof {
                lemma_span_end_bounds(s, i, CharClass::IdentPart);
            }
            cons_token(
                spec_token(word_kind(s.subrange(i as int, e as int)), line, column),
                lex_from(s, e, line, column + (e - i) as nat),
            )
        } else if single_kind(c) is Some {
            cons_token(
                spec_token(single_kind(c).unwrap(), line, column),
                lex_from(s, i + 1, line, column + 1),
            )
        } else {
            Err(spec_error(unexpected_message(c), line, column))
        }
    }
}

/// The tokens of a whole source text, starting at line 1, column 1.
pub open spec fn spec_lex(s: Seq<char>) -> Result<Seq<SpecToken>, SpecError> {
    lex_from(s, 0, 1, 1)
}


fn char_in_class(c: char, class: CharClass) -> (b: bool)
    ensures
        b == in_class(c, class),
{
    match class {
        CharClass::Digit => '0' <= c && c <= '9',
        CharClass::IdentPart => ('a' <= c && c <= 'z') || ('A' <= c && c <= 'Z') || c == '_' || (
        '0' <= c && c <= '9'),
        CharClass::NotNewline => c != '\n',
    }
}

/// The end of the run of `class` characters that starts at `start`.
fn scan(chars: &Vec<char>, start: usize, class: CharClass) -> (e: usize)
    requires
        start <= chars.len(),
    ensures
        e == span_end(chars@, start as nat, class),
{
    let mut e = start;
    while e < chars.len() && char_in_class(chars[e], class)
        invariant
            start <= e <= chars.len(),
            span_end(chars@, start as nat, class) == span_end(chars@, e as nat, class),
        decreases chars.len() - e,
    {
        e = e + 1;
    }
    e
}

proof fn lemma_digits_value_step(s: Seq<char>, i: int, k: int)
    requires
        0 <= i <= k < s.len(),
    ensures
        digits_value(s.subrange(i, k + 1)) == 10 * digits_value(s.subrange(i, k)) + (
        s[k] as int - 48),
{
    assert(s.subrange(i, k + 1).drop_last() =~= s.subrange(i, k));
}

/// Prefixes of a digit run are worth no more than the run.
proof fn lemma_digits_value_grows(s: Seq<char>, i: int, k: int, e: int)
    requires
        0 <= i <= k <= e <= s.len(),
        forall|m: int| i <= m < e ==> is_digit(#[trigger] s[m]),
    ensures
        digits_value(s.subrange(i, k)) <= digits_value(s.subrange(i, e)),
        0 <= digits_value(s.subrange(i, k)),
    decreases e - k,
{
    if k < e {
        lemma_digits_value_grows(s, i, k + 1, e);
        lemma_digits_value_step(s, i, k);
    } else {
        lemma_digits_value_nonneg(s, i, k);
    }
}

proof fn lemma_digits_value_nonneg(s: Seq<char>, i: int, k: int)
    requires
        0 <= i <= k <= s.len(),
        forall|m: int| i <= m < k ==> is_digit(#[trigger] s[m]),
    ensures
        0 <= digits_value(s.subrange(i, k)),
    decreases k - i,
{
    if k > i {
        lemma_digits_value_nonneg(s, i, k - 1);
        lemma_digits_value_step(s, i, k - 1);
    } else {
        assert(s.subrange(i, k).len() == 0);
    }
}

/// The value of the digit run `chars[start..end]`, if it fits in an `i64`.
fn read_number(chars: &Vec<char>, start: usize, end: usize) -> (r: Option<i64>)
    requires
        start <= end <= chars.len(),
        forall|m: int| start <= m < end ==> is_digit(#[trigger] chars@[m]),
    ensures
        digits_value(chars@.subrange(start as int, end as int)) <= i64::MAX ==> r == Some(
            digits_value(chars@.subrange(start as int, end as int)) as i64,
        ),
        digits_value(chars@.subrange(start as int, end as int)) > i64::MAX ==> r is None,
{
    let mut acc: i64 = 0;
    let mut k = start;
    assert(chars@.subrange(start as int, start as int).len() == 0);
    while k < end
        invariant
            start <= k <= end <= chars.len(),
            forall|m: int| start <= m < end ==> is_digit(#[trigger] chars@[m]),
            acc == digits_value(chars@.subrange(start as int, k as int)),
        decreases end - k,
    {
        proof {
            lemma_digits_value_step(chars@, start as int, k as int);
            lemma_digits_value_grows(chars@, start as int, k as int + 1, end as int);
            lemma_digits_value_nonneg(chars@, start as int, k as int);
        }
        let d = (chars[k] as u32 - 48u32) as i64;
        match acc.checked_mul(10) {
            Some(t) => match t.checked_add(d) {
                Some(n) => {
                    acc = n;
                },
                None => {
                    return None;
                },
            },
            None => {
                return None;
            },
        }
        k = k + 1;
    }
    Some(acc)
}

/// The characters `chars[start..end]` as a string.
fn collect_text(chars: &Vec<char>, start: usize, end: usize) -> (s: String)
    requires
        start <= end <= chars.len(),
    ensures
        s@ == chars@.subrange(start as int, end as int),
{
    let mut s = String::new();
    let mut k = start;
    while k < end
        invariant
            start <= k <= end <= chars.len(),
            s@ == chars@.subrange(start as int, k as int),
        decreases end - k,
    {
        push_char(&mut s, chars[k]);
        assert(chars@.subrange(start as int, k + 1) =~= chars@.subrange(start as int, k as int).push(chars@[k as int]));
        k = k + 1;
    }
    s
}

/// The token kind of a word: a keyword or an identifier.
fn word_token_kind(text: String) -> (k: TokenKind)
    ensures
        k@ == word_kind(text@),
{
    if text == String::from_str("int") {
        TokenKind::Int
    } else if text == String::from_str("return") {
        TokenKind::Return
    } else if text == String::from_str("print") {
        TokenKind::Print
    } else {
        TokenKind::Ident(text)
    }
}

/// The kind of a one-character token, if `c` is one.
fn single_token_kind(c: char) -> (k: Option<TokenKind>)
    ensures
        k matches Some(kind) ==> single_kind(c) == Some(kind@),
        k is None ==> single_kind(c) is None,
{
    if c == '+' {
        Some(TokenKind::Plus)
    } else if c == '-' {
        Some(TokenKind::Minus)
    } else if c == '*' {
        Some(TokenKind::Star)
    } else if c == '(' {
        Some(TokenKind::LParen)
    } else if c == ')' {
        Some(TokenKind::RParen)
    } else if c == '{' {
        Some(TokenKind::LBrace)
    } else if c == '}' {
        Some(TokenKind::RBrace)
    } else if c == ';' {
        Some(TokenKind::Semicolon)
    } else {
        None
    }
}

/// Emits a one-character token at the current position and steps over its character.
fn push_single(
    tokens: &mut Vec<Token>,
    pos: &mut usize,
    column: &mut usize,
    kind: TokenKind,
    line: usize,
)
    requires
        *old(pos) < usize::MAX,
        *old(column) < usize::MAX,
    ensures
        tokens_view(final(tokens)@) == tokens_view(old(tokens)@).push(
            spec_token(kind@, line as nat, *old(column) as nat),
        ),
        final(tokens)@.len() == old(tokens)@.len() + 1,
        *final(pos) == *old(pos) + 1,
        *final(column) == *old(column) + 1,
{
    let start_column = *column;
    *pos = *pos + 1;
    *column = *column + 1;
    tokens.push(Token { kind, line, column: start_column });
    assert(tokens_view(tokens@) =~= tokens_view(old(tokens)@).push(
        spec_token(kind@, line as nat, start_column as nat),
    ));
}


/// Splits `source` into tokens, ending with an end-of-file token.
///
/// Lines and columns are 1-based and count characters; blanks (space, tab,
/// carriage return) and `//` comments produce no token.
pub fn lex(source: &str) -> (r: Result<Vec<Token>, CompileError>)
    requires
        source@.len() < usize::MAX,
    ensures
        r matches Ok(ts) ==> spec_lex(source@) == Ok::<Seq<SpecToken>, SpecError>(tokens_view(ts@)),
        r matches Err(e) ==> spec_lex(source@) == Err::<Seq<SpecToken>, SpecError>(e@),
{
    let chars = chars_of(source);
    let ghost s = source@;
    let mut tokens: Vec<Token> = Vec::new();
    let mut pos: usize = 0;
    let mut line: usize = 1;
    let mut column: usize = 1;
    assert(tokens_view(tokens@) =~= Seq::<SpecToken>::empty());
    assert(prepend_tokens(Seq::<SpecToken>::empty(), spec_lex(s)) =~= spec_lex(s)) by {
        match spec_lex(s) {
            Ok(ts) => {
                assert(Seq::<SpecToken>::empty() + ts =~= ts);
            },
            Err(e) => {},
        }
    }
    while pos < chars.len()
        invariant
            chars@ == s,
            s == source@,
            s.len() < usize::MAX,
            pos <= chars.len(),
            1 <= line <= pos + 1,
            1 <= column <= pos + 1,
            tokens.len() <= pos,
            spec_lex(s) == prepend_tokens(
                tokens_view(tokens@),
                lex_from(s, pos as nat, line as nat, column as nat),
            ),
        decreases chars.len() - pos,
    {
        let ch = chars[pos];
        let ghost old_tokens = tokens_view(tokens@);
        if ch == ' ' || ch == '\t' || ch == '\r' {
            pos = pos + 1;
            column = column + 1;
        } else if ch == '\n' {
            pos = pos + 1;
            line = line + 1;
            column = 1;
        } else if ch == '/' {
            let start_column = column;
            if pos + 1 < chars.len() && chars[pos + 1] == '/' {
                let end = scan(&chars, pos + 1, CharClass::NotNewline);
                proof {
                    lemma_span_end_bounds(s, pos as nat + 1, CharClass::NotNewline);
                }
                column = column + (end - pos);
                pos = end;
            } else {
                push_single(&mut tokens, &mut pos, &mut column, TokenKind::Slash, line);
                proof {
                    lemma_prepend_cons(
                        old_tokens,
                        spec_token(SpecTokenKind::Slash, line as nat, start_column as nat),
                        lex_from(s, pos as nat, line as nat, column as nat),
                    );
                }
            }
        } else if '0' <= ch && ch <= '9' {
            let start = pos;
            let start_column = column;
            let end = scan(&chars, pos, CharClass::Digit);
            proof {
                lemma_span_end_bounds(s, pos as nat, CharClass::Digit);
                lemma_digits_value_nonneg(s, start as int, end as int);
            }
            let value = match read_number(&chars, start, end) {
                Some(v) => v,
                None => {
                    return Err(
                        CompileError::new(
                            String::from_str("integer literal is too large"),
                            line,
                            start_column,
                        ),
                    );
                },
            };
            if value > i32::MAX as i64 {
                return Err(
                    CompileError::new(
                        String::from_str("integer literal must fit in a 32-bit signed int"),
                        line,
                        start_column,
                    ),
                );
            }
            tokens.push(Token { kind: TokenKind::Number(value as i32), line, column: start_column });
            column = column + (end - start);
            pos = end;
            proof {
                assert(tokens_view(tokens@) =~= old_tokens.push(
                    spec_token(SpecTokenKind::Number(value as i32), line as nat, start_column as nat),
                ));
                lemma_prepend_cons(
                    old_tokens,
                    spec_token(SpecTokenKind::Number(value as i32), line as nat, start_column as nat),
                    lex_from(s, pos as nat, line as nat, column as nat),
                );
            }
        } else if ('a' <= ch && ch <= 'z') || ('A' <= ch && ch <= 'Z') || ch == '_' {
            let start = pos;
            let start_column = column;
            let end = scan(&chars, pos, CharClass::IdentPart);
            proof {
                lemma_span_end_bounds(s, pos as nat, CharClass::IdentPart);
            }
            let text = collect_text(&chars, start, end);
            let kind = word_token_kind(text);
            let ghost kind_view = kind@;
            tokens.push(Token { kind, line, column: start_column });
            column = column + (end - start);
            pos = end;
            proof {
                assert(tokens_view(tokens@) =~= old_tokens.push(
                    spec_token(kind_view, line as nat, start_column as nat),
                ));
                lemma_prepend_cons(
                    old_tokens,
                    spec_token(kind_view, line as nat, start_column as nat),
                    lex_from(s, pos as nat, line as nat, column as nat),
                );
            }
        } else {
            let start_column = column;
            match single_token_kind(ch) {
                Some(kind) => {
                    let ghost kind_view = kind@;
                    push_single(&mut tokens, &mut pos, &mut column, kind, line);
                    proof {
                        lemma_prepend_cons(
                            old_tokens,
                            spec_token(kind_view, line as nat, start_column as nat),
                            lex_from(s, pos as nat, line as nat, column as nat),
                        );
                    }
                },
                None => {
                    let mut message = String::from_str("unexpected character '");
                    push_char(&mut message, ch);
                    message.append("'");
                    assert(message@ == unexpected_message(ch));
                    return Err(CompileError::new(message, line, column));
                },
            }
        }
    }
    let ghost before_eof = tokens_view(tokens@);
    tokens.push(Token { kind: TokenKind::Eof, line, column });
    assert(tokens_view(tokens@) =~= before_eof + seq![
        spec_token(SpecTokenKind::Eof, line as nat, column as nat),
    ]);
    Ok(tokens)
}

proof fn lemma_prepend_cons(
    ts: Seq<SpecToken>,
    t: SpecToken,
    rest: Result<Seq<SpecToken>, SpecError>,
)
    ensures
        prepend_tokens(ts, cons_token(t, rest)) == prepend_tokens(ts.push(t), rest),
{
    match rest {
        Ok(more) => {
            assert(ts + (seq![t] + more) =~= ts.push(t) + more);
        },
        Err(e) => {},
    }
}


proof fn lemma_cons_well_formed(t: SpecToken, ts: Seq<SpecToken>)
    requires
        tokens_well_formed(ts),
        !(t.kind is Eof),
        t.line >= 1,
        t.column >= 1,
    ensures
        tokens_well_formed(seq![t] + ts),
{
    let r = seq![t] + ts;
    assert forall|k: int| 0 <= k < r.len() - 1 implies !(#[trigger] r[k].kind is Eof) by {
        if k > 0 {
            assert(r[k] == ts[k - 1]);
        }
    }
    assert forall|k: int| 0 <= k < r.len() implies #[trigger] r[k].line >= 1 && r[k].column >= 1 by {
        if k > 0 {
            assert(r[k] == ts[k - 1]);
        }
    }
}

proof fn lemma_lex_from_well_formed(s: Seq<char>, i: nat, line: nat, column: nat)
    requires
        line >= 1,
        column >= 1,
    ensures
        lex_from(s, i, line, column) matches Ok(ts) ==> tokens_well_formed(ts) && ts.len() <= (
        if i <= s.len() {
            s.len() - i
        } else {
            0
        }) + 1,
        lex_from(s, i, line, column) matches Err(e) ==> e.line >= 1 && e.column >= 1,
    decreases s.len() - i,
{
    if i < s.len() {
        let c = s[i as int];
        if c == ' ' || c == '\t' || c == '\r' {
            lemma_lex_from_well_formed(s, i + 1, line, column + 1);
        } else if c == '\n' {
            lemma_lex_from_well_formed(s, i + 1, line + 1, 1);
        } else if c == '/' {
            if i + 1 < s.len() && s[i + 1int] == '/' {
                let e = span_end(s, i + 1, CharClass::NotNewline);
                lemma_span_end_bounds(s, i + 1, CharClass::NotNewline);
                lemma_lex_from_well_formed(s, e, line, column + (e - i) as nat);
            } else {
                lemma_lex_from_well_formed(s, i + 1, line, column + 1);
                if let Ok(ts) = lex_from(s, i + 1, line, column + 1) {
                    lemma_cons_well_formed(spec_token(SpecTokenKind::Slash, line, column), ts);
                }
            }
        } else if is_digit(c) {
            let e = span_end(s, i, CharClass::Digit);
            lemma_span_end_bounds(s, i, CharClass::Digit);
            let v = digits_value(s.subrange(i as int, e as int));
            lemma_lex_from_well_formed(s, e, line, column + (e - i) as nat);
            if let Ok(ts) = lex_from(s, e, line, column + (e - i) as nat) {
                lemma_cons_well_formed(spec_token(SpecTokenKind::Number(v as i32), line, column), ts);
            }
        } else if is_ident_start(c) {
            let e = span_end(s, i, CharClass::IdentPart);
            lemma_span_end_bounds(s, i, CharClass::IdentPart);
            lemma_lex_from_well_formed(s, e, line, column + (e - i) as nat);
            if let Ok(ts) = lex_from(s, e, line, column + (e - i) as nat) {
                lemma_cons_well_formed(
                    spec_token(word_kind(s.subrange(i as int, e as int)), line, column),
                    ts,
                );
            }
        } else if single_kind(c) is Some {
            lemma_lex_from_well_formed(s, i + 1, line, column + 1);
            if let Ok(ts) = lex_from(s, i + 1, line, column + 1) {
                lemma_cons_well_formed(spec_token(single_kind(c).unwrap(), line, column), ts);
            }
        }
    }
}

/// Law: whatever the lexer accepts becomes a well-formed token sequence
/// (the only end-of-file token comes last, every position is 1-based), with at
/// most one token per source character plus the end-of-file token; what it
/// refuses, it refuses at a 1-based position.
pub proof fn lemma_lex_well_formed(s: Seq<char>)
    ensures
        spec_lex(s) matches Ok(ts) ==> tokens_well_formed(ts) && ts.len() <= s.len() + 1,
        spec_lex(s) matches Err(e) ==> e.line >= 1 && e.column >= 1,
{
    lemma_lex_from_well_formed(s, 0, 1, 1);
}

} // verus!
