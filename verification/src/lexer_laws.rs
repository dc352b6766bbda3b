//! Laws of the lexer that relate the tokens of different source texts.
use vstd::prelude::*;

use crate::error::SpecError;
use crate::lexer::{
    cons_token, in_class, is_digit, is_ident_start, lemma_span_end_bounds, lex_from,
    prepend_tokens, single_kind, span_end, spec_lex, spec_token, CharClass, SpecToken,
    SpecTokenKind,
};

verus! {

/// The kinds of the tokens of a lexing result, or its error.
pub open spec fn token_kinds(r: Result<Seq<SpecToken>, SpecError>) -> Result<
    Seq<SpecTokenKind>,
    SpecError,
> {
    match r {
        Ok(ts) => Ok(ts.map_values(|t: SpecToken| t.kind)),
        Err(e) => Err(e),
    }
}

proof fn lemma_token_kinds_cons(
    t: SpecToken,
    r1: Result<Seq<SpecToken>, SpecError>,
    r2: Result<Seq<SpecToken>, SpecError>,
)
    requires
        token_kinds(r1) == token_kinds(r2),
    ensures
        token_kinds(cons_token(t, r1)) == token_kinds(cons_token(t, r2)),
{
    if let (Ok(a), Ok(b)) = (r1, r2) {
        let ka = a.map_values(|x: SpecToken| x.kind);
        let kb = b.map_values(|x: SpecToken| x.kind);
        assert((seq![t] + a).map_values(|x: SpecToken| x.kind) =~= seq![t.kind] + ka);
        assert((seq![t] + b).map_values(|x: SpecToken| x.kind) =~= seq![t.kind] + kb);
    }
}

/// A run of `class` characters of `s` that stops inside `s` stops at the same
/// place in `s + u`; one that reaches the end of `s` goes on into `u`.
proof fn lemma_span_end_extend(s: Seq<char>, u: Seq<char>, i: nat, class: CharClass)
    requires
        i <= s.len(),
    ensures
        span_end(s, i, class) < s.len() ==> span_end(s + u, i, class) == span_end(s, i, class),
        span_end(s, i, class) == s.len() ==> span_end(s + u, i, class) == span_end(
            s + u,
            s.len(),
            class,
        ),
    decreases s.len() - i,
{
    if i < s.len() {
        assert((s + u)[i as int] == s[i as int]);
        if in_class(s[i as int], class) {
            lemma_span_end_extend(s, u, i + 1, class);
        }
    }
}

/// A run over characters that are all of `class` reaches the end.
proof fn lemma_span_end_to_end(x: Seq<char>, j: nat, class: CharClass)
    requires
        j <= x.len(),
        forall|k: int| j <= k < x.len() ==> in_class(#[trigger] x[k], class),
    ensures
        span_end(x, j, class) == x.len(),
    decreases x.len() - j,
{
    if j < x.len() {
        lemma_span_end_to_end(x, j + 1, class);
    }
}

proof fn lemma_comment_suffix(s: Seq<char>, u: Seq<char>, i: nat, line: nat, column: nat)
    requires
        u.len() >= 2,
        u[0] == '/',
        u[1] == '/',
        forall|k: int| 0 <= k < u.len() ==> #[trigger] u[k] != '\n',
        s.len() == 0 || s.last() != '/',
        i <= s.len(),
    ensures
        token_kinds(lex_from(s + u, i, line, column)) == token_kinds(lex_from(s, i, line, column)),
    decreases s.len() - i,
{
    let x = s + u;
    if i == s.len() {
        assert(x[i as int] == '/');
        assert(x[i + 1int] == '/');
        let e = span_end(x, i + 1, CharClass::NotNewline);
        lemma_span_end_to_end(x, i + 1, CharClass::NotNewline);
        assert(lex_from(x, e, line, column + (e - i) as nat) == Ok::<Seq<SpecToken>, SpecError>(
            seq![spec_token(SpecTokenKind::Eof, line, column + (e - i) as nat)],
        ));
        assert(seq![spec_token(SpecTokenKind::Eof, line, column + (e - i) as nat)].map_values(
            |t: SpecToken| t.kind,
        ) =~= seq![spec_token(SpecTokenKind::Eof, line, column)].map_values(|t: SpecToken| t.kind));
    } else {
        let c = s[i as int];
        assert(x[i as int] == c);
        if c == ' ' || c == '\t' || c == '\r' {
            lemma_comment_suffix(s, u, i + 1, line, column + 1);
        } else if c == '\n' {
            lemma_comment_suffix(s, u, i + 1, line + 1, 1);
        } else if c == '/' {
            assert(i + 1 < s.len());
            assert(x[i + 1int] == s[i + 1int]);
            if s[i + 1int] == '/' {
                let e = span_end(s, i + 1, CharClass::NotNewline);
                lemma_span_end_bounds(s, i + 1, CharClass::NotNewline);
                lemma_span_end_extend(s, u, i + 1, CharClass::NotNewline);
                if e < s.len() {
                    lemma_comment_suffix(s, u, e, line, column + (e - i) as nat);
                } else {
                    let ex = span_end(x, i + 1, CharClass::NotNewline);
                    lemma_span_end_to_end(x, s.len(), CharClass::NotNewline);
                    lemma_span_end_bounds(x, i + 1, CharClass::NotNewline);
                    lemma_comment_suffix(s, u, s.len(), line, column + (e - i) as nat);
                    assert(lex_from(x, ex, line, column + (ex - i) as nat) == Ok::<
                        Seq<SpecToken>,
                        SpecError,
                    >(seq![spec_token(SpecTokenKind::Eof, line, column + (ex - i) as nat)]));
                    assert(seq![
                        spec_token(SpecTokenKind::Eof, line, column + (ex - i) as nat),
                    ].map_values(|t: SpecToken| t.kind) =~= seq![
                        spec_token(SpecTokenKind::Eof, line, column + (e - i) as nat),
                    ].map_values(|t: SpecToken| t.kind));
                }
            } else {
                lemma_comment_suffix(s, u, i + 1, line, column + 1);
                lemma_token_kinds_cons(
                    spec_token(SpecTokenKind::Slash, line, column),
                    lex_from(x, i + 1, line, column + 1),
                    lex_from(s, i + 1, line, column + 1),
                );
            }
        } else if is_digit(c) {
            let e = span_end(s, i, CharClass::Digit);
            lemma_span_end_bounds(s, i, CharClass::Digit);
            lemma_span_end_extend(s, u, i, CharClass::Digit);
            assert(x[s.len() as int] == '/');
            assert(x.subrange(i as int, e as int) =~= s.subrange(i as int, e as int));
            lemma_comment_suffix(s, u, e, line, column + (e - i) as nat);
            let v = crate::lexer::digits_value(s.subrange(i as int, e as int));
            lemma_token_kinds_cons(
                spec_token(SpecTokenKind::Number(v as i32), line, column),
                lex_from(x, e, line, column + (e - i) as nat),
                lex_from(s, e, line, column + (e - i) as nat),
            );
        } else if is_ident_start(c) {
            let e = span_end(s, i, CharClass::IdentPart);
            lemma_span_end_bounds(s, i, CharClass::IdentPart);
            lemma_span_end_extend(s, u, i, CharClass::IdentPart);
            assert(x[s.len() as int] == '/');
            assert(x.subrange(i as int, e as int) =~= s.subrange(i as int, e as int));
            lemma_comment_suffix(s, u, e, line, column + (e - i) as nat);
            lemma_token_kinds_cons(
                spec_token(
                    crate::lexer::word_kind(s.subrange(i as int, e as int)),
                    line,
                    column,
                ),
                lex_from(x, e, line, column + (e - i) as nat),
                lex_from(s, e, line, column + (e - i) as nat),
            );
        } else if single_kind(c) is Some {
            lemma_comment_suffix(s, u, i + 1, line, column + 1);
            lemma_token_kinds_cons(
                spec_token(single_kind(c).unwrap(), line, column),
                lex_from(x, i + 1, line, column + 1),
                lex_from(s, i + 1, line, column + 1),
            );
        }
    }
}

/// Law: a `//` comment at the end of a source text (one that does not end in
/// `/`) adds no token and neither causes nor changes an error.
pub proof fn lemma_comment_adds_no_tokens(s: Seq<char>, t: Seq<char>)
    requires
        forall|k: int| 0 <= k < t.len() ==> #[trigger] t[k] != '\n',
        s.len() == 0 || s.last() != '/',
    ensures
        token_kinds(spec_lex(s + seq!['/', '/'] + t)) == token_kinds(spec_lex(s)),
{
    let u = seq!['/', '/'] + t;
    assert forall|k: int| 0 <= k < u.len() implies #[trigger] u[k] != '\n' by {
        if k >= 2 {
            assert(u[k] == t[k - 2]);
        }
    }
    assert(s + seq!['/', '/'] + t =~= s + u);
    lemma_comment_suffix(s, u, 0, 1, 1);
}


/// The number of newline characters of `s` from index `i` on.
pub open spec fn newlines_from(s: Seq<char>, i: nat) -> nat
    decreases s.len() - i,
{
    if i >= s.len() {
        0
    } else {
        (if s[i as int] == '\n' {
            1nat
        } else {
            0nat
        }) + newlines_from(s, i + 1)
    }
}

/// The number of newline characters of `s`.
pub open spec fn newline_count(s: Seq<char>) -> nat {
    newlines_from(s, 0)
}

/// Tokens moved down by `k` lines.
pub open spec fn shift_lines(ts: Seq<SpecToken>, k: nat) -> Seq<SpecToken> {
    ts.map_values(|t: SpecToken| spec_token(t.kind, t.line + k, t.column))
}

/// A lexing result moved down by `k` lines.
pub open spec fn shift_result(r: Result<Seq<SpecToken>, SpecError>, k: nat) -> Result<
    Seq<SpecToken>,
    SpecError,
> {
    match r {
        Ok(ts) => Ok(shift_lines(ts, k)),
        Err(e) => Err(crate::error::spec_error(e.message, e.line + k, e.column)),
    }
}

proof fn lemma_newlines_skip_run(s: Seq<char>, i: nat, e: nat)
    requires
        i <= e <= s.len(),
        forall|k: int| i <= k < e ==> #[trigger] s[k] != '\n',
    ensures
        newlines_from(s, i) == newlines_from(s, e),
    decreases e - i,
{
    if i < e {
        lemma_newlines_skip_run(s, i + 1, e);
    }
}

proof fn lemma_class_not_newline(c: char, class: CharClass)
    requires
        in_class(c, class),
    ensures
        c != '\n',
{
}

/// The end-of-file token of a lexing that succeeds lies on the line after all
/// the newlines that were read.
proof fn lemma_lex_last_line(s: Seq<char>, i: nat, line: nat, column: nat)
    requires
        i <= s.len(),
    ensures
        lex_from(s, i, line, column) matches Ok(ts) ==> ts.len() > 0 && ts.last().line == line
            + newlines_from(s, i),
    decreases s.len() - i,
{
    if i < s.len() {
        let c = s[i as int];
        if c == ' ' || c == '\t' || c == '\r' {
            lemma_lex_last_line(s, i + 1, line, column + 1);
        } else if c == '\n' {
            lemma_lex_last_line(s, i + 1, line + 1, 1);
        } else if c == '/' {
            if i + 1 < s.len() && s[i + 1int] == '/' {
                let e = span_end(s, i + 1, CharClass::NotNewline);
                lemma_span_end_bounds(s, i + 1, CharClass::NotNewline);
                lemma_newlines_skip_run(s, i, e);
                lemma_lex_last_line(s, e, line, column + (e - i) as nat);
            } else {
                lemma_lex_last_line(s, i + 1, line, column + 1);
            }
        } else if is_digit(c) {
            let e = span_end(s, i, CharClass::Digit);
            lemma_span_end_bounds(s, i, CharClass::Digit);
            assert forall|k: int| i <= k < e implies #[trigger] s[k] != '\n' by {
                lemma_class_not_newline(s[k], CharClass::Digit);
            }
            lemma_newlines_skip_run(s, i, e);
            lemma_lex_last_line(s, e, line, column + (e - i) as nat);
        } else if is_ident_start(c) {
            let e = span_end(s, i, CharClass::IdentPart);
            lemma_span_end_bounds(s, i, CharClass::IdentPart);
            assert forall|k: int| i <= k < e implies #[trigger] s[k] != '\n' by {
                lemma_class_not_newline(s[k], CharClass::IdentPart);
            }
            lemma_newlines_skip_run(s, i, e);
            lemma_lex_last_line(s, e, line, column + (e - i) as nat);
        } else if single_kind(c) is Some {
            lemma_lex_last_line(s, i + 1, line, column + 1);
        }
    }
}

proof fn lemma_prepend_cons_tokens(
    t: SpecToken,
    p: Seq<SpecToken>,
    rest: Result<Seq<SpecToken>, SpecError>,
)
    ensures
        cons_token(t, prepend_tokens(p, rest)) == prepend_tokens(seq![t] + p, rest),
{
    if let Ok(more) = rest {
        assert(seq![t] + (p + more) =~= (seq![t] + p) + more);
    }
}

/// A character that no token continues over.
pub open spec fn ends_token(c: char) -> bool {
    c == ' ' || c == '\t' || c == '\r' || c == '\n' || single_kind(c) is Some
}

/// `s` holds no `//`.
pub open spec fn no_comment(s: Seq<char>) -> bool {
    forall|k: int| 0 <= k < s.len() - 1 ==> !(#[trigger] s[k] == '/' && s[k + 1] == '/')
}

/// `w` can follow `s` without running into its last token or comment.
pub open spec fn joins_cleanly(s: Seq<char>, w: Seq<char>) -> bool {
    &&& w.len() > 0
    &&& s.len() == 0 || ends_token(s.last()) || ends_token(w[0])
    &&& w[0] == '\n' || no_comment(s)
}

/// Lexing `s` followed by text that joins it cleanly: the tokens of `s`
/// without its end-of-file token, then what follows from where `s` ended.
proof fn lemma_lex_extend(s: Seq<char>, w: Seq<char>, i: nat, line: nat, column: nat)
    requires
        joins_cleanly(s, w),
        i <= s.len(),
        lex_from(s, i, line, column) is Ok,
    ensures
        ({
            let ts = lex_from(s, i, line, column)->Ok_0;
            lex_from(s + w, i, line, column) == prepend_tokens(
                ts.drop_last(),
                lex_from(s + w, s.len(), ts.last().line, ts.last().column),
            )
        }),
    decreases s.len() - i,
{
    let x = s + w;
    assert(x[s.len() as int] == w[0]);
    if i == s.len() {
        let ts = lex_from(s, i, line, column)->Ok_0;
        assert(ts.drop_last() =~= Seq::<SpecToken>::empty());
        if let Ok(more) = lex_from(x, i, line, column) {
            assert(Seq::<SpecToken>::empty() + more =~= more);
        }
    } else {
        let c = s[i as int];
        assert(x[i as int] == c);
        if c == ' ' || c == '\t' || c == '\r' {
            lemma_lex_extend(s, w, i + 1, line, column + 1);
        } else if c == '\n' {
            lemma_lex_extend(s, w, i + 1, line + 1, 1);
        } else if c == '/' {
            if i + 1 < s.len() {
                assert(x[i + 1int] == s[i + 1int]);
            } else {
                assert(x[i + 1int] == w[0]);
                assert(s.last() == '/');
            }
            if i + 1 < s.len() && s[i + 1int] == '/' {
                let e = span_end(s, i + 1, CharClass::NotNewline);
                lemma_span_end_bounds(s, i + 1, CharClass::NotNewline);
                lemma_span_end_extend(s, w, i + 1, CharClass::NotNewline);
                assert(w[0] == '\n') by {
                    if w[0] != '\n' {
                        assert(s[i as int] == '/' && s[i + 1int] == '/');
                    }
                }
                lemma_lex_extend(s, w, e, line, column + (e - i) as nat);
            } else {
                lemma_lex_extend(s, w, i + 1, line, column + 1);
                lemma_lex_from_tokens_nonempty(s, i + 1, line, column + 1);
                let rest = lex_from(s, i + 1, line, column + 1)->Ok_0;
                let t = spec_token(SpecTokenKind::Slash, line, column);
                assert((seq![t] + rest).drop_last() =~= seq![t] + rest.drop_last());
                lemma_prepend_cons_tokens(
                    t,
                    rest.drop_last(),
                    lex_from(x, s.len(), rest.last().line, rest.last().column),
                );
            }
        } else if is_digit(c) || is_ident_start(c) {
            let class = if is_digit(c) {
                CharClass::Digit
            } else {
                CharClass::IdentPart
            };
            let e = span_end(s, i, class);
            lemma_span_end_bounds(s, i, class);
            lemma_span_end_extend(s, w, i, class);
            if e == s.len() {
                assert(in_class(s[s.len() - 1], class));
                assert(!in_class(w[0], class));
            }
            assert(x.subrange(i as int, e as int) =~= s.subrange(i as int, e as int));
            lemma_lex_extend(s, w, e, line, column + (e - i) as nat);
            lemma_lex_from_tokens_nonempty(s, e, line, column + (e - i) as nat);
            let rest = lex_from(s, e, line, column + (e - i) as nat)->Ok_0;
            let ts = lex_from(s, i, line, column)->Ok_0;
            let t = ts[0];
            assert(ts == seq![t] + rest);
            assert((seq![t] + rest).drop_last() =~= seq![t] + rest.drop_last());
            lemma_prepend_cons_tokens(
                t,
                rest.drop_last(),
                lex_from(x, s.len(), rest.last().line, rest.last().column),
            );
        } else if single_kind(c) is Some {
            lemma_lex_extend(s, w, i + 1, line, column + 1);
            lemma_lex_from_tokens_nonempty(s, i + 1, line, column + 1);
            let rest = lex_from(s, i + 1, line, column + 1)->Ok_0;
            let t = spec_token(single_kind(c).unwrap(), line, column);
            assert((seq![t] + rest).drop_last() =~= seq![t] + rest.drop_last());
            lemma_prepend_cons_tokens(
                t,
                rest.drop_last(),
                lex_from(x, s.len(), rest.last().line, rest.last().column),
            );
        }
    }
}

proof fn lemma_lex_from_tokens_nonempty(s: Seq<char>, i: nat, line: nat, column: nat)
    requires
        i <= s.len(),
    ensures
        lex_from(s, i, line, column) matches Ok(ts) ==> ts.len() > 0,
{
    lemma_lex_last_line(s, i, line, column);
}


proof fn lemma_span_end_offset(p: Seq<char>, t: Seq<char>, j: nat, class: CharClass)
    requires
        j <= t.len(),
    ensures
        span_end(p + t, p.len() + j, class) == p.len() + span_end(t, j, class),
    decreases t.len() - j,
{
    if j < t.len() {
        assert((p + t)[p.len() + j as int] == t[j as int]);
        if in_class(t[j as int], class) {
            lemma_span_end_offset(p, t, j + 1, class);
        }
    }
}

/// Lexing the text `t` where it follows `p` is lexing `t` alone.
proof fn lemma_lex_offset(p: Seq<char>, t: Seq<char>, j: nat, line: nat, column: nat)
    requires
        j <= t.len(),
    ensures
        lex_from(p + t, p.len() + j, line, column) == lex_from(t, j, line, column),
    decreases t.len() - j,
{
    let x = p + t;
    let i = p.len() + j;
    if j < t.len() {
        let c = t[j as int];
        assert(x[i as int] == c);
        if j + 1 < t.len() {
            assert(x[i + 1int] == t[j + 1int]);
        }
        if c == ' ' || c == '\t' || c == '\r' {
            lemma_lex_offset(p, t, j + 1, line, column + 1);
        } else if c == '\n' {
            lemma_lex_offset(p, t, j + 1, line + 1, 1);
        } else if c == '/' {
            if j + 1 < t.len() && t[j + 1int] == '/' {
                let e = span_end(t, j + 1, CharClass::NotNewline);
                lemma_span_end_bounds(t, j + 1, CharClass::NotNewline);
                lemma_span_end_offset(p, t, j + 1, CharClass::NotNewline);
                lemma_lex_offset(p, t, e, line, column + (e - j) as nat);
            } else {
                lemma_lex_offset(p, t, j + 1, line, column + 1);
            }
        } else if is_digit(c) || is_ident_start(c) {
            let class = if is_digit(c) {
                CharClass::Digit
            } else {
                CharClass::IdentPart
            };
            let e = span_end(t, j, class);
            lemma_span_end_bounds(t, j, class);
            lemma_span_end_offset(p, t, j, class);
            assert(x.subrange(i as int, (p.len() + e) as int) =~= t.subrange(j as int, e as int));
            lemma_lex_offset(p, t, e, line, column + (e - j) as nat);
        } else if single_kind(c) is Some {
            lemma_lex_offset(p, t, j + 1, line, column + 1);
        }
    }
}

proof fn lemma_shift_cons(t: SpecToken, r: Result<Seq<SpecToken>, SpecError>, k: nat)
    ensures
        shift_result(cons_token(t, r), k) == cons_token(
            spec_token(t.kind, t.line + k, t.column),
            shift_result(r, k),
        ),
{
    if let Ok(ts) = r {
        assert(shift_lines(seq![t] + ts, k) =~= seq![spec_token(t.kind, t.line + k, t.column)]
            + shift_lines(ts, k));
    }
}

/// Lexing from a line `k` further down gives the same tokens, `k` lines further down.
proof fn lemma_lex_shift_lines(t: Seq<char>, j: nat, line: nat, column: nat, k: nat)
    requires
        j <= t.len(),
    ensures
        lex_from(t, j, line + k, column) == shift_result(lex_from(t, j, line, column), k),
    decreases t.len() - j,
{
    if j == t.len() {
        assert(shift_lines(seq![spec_token(SpecTokenKind::Eof, line, column)], k) =~= seq![
            spec_token(SpecTokenKind::Eof, line + k, column),
        ]);
    } else {
        let c = t[j as int];
        if c == ' ' || c == '\t' || c == '\r' {
            lemma_lex_shift_lines(t, j + 1, line, column + 1, k);
        } else if c == '\n' {
            lemma_lex_shift_lines(t, j + 1, line + 1, 1, k);
        } else if c == '/' {
            if j + 1 < t.len() && t[j + 1int] == '/' {
                let e = span_end(t, j + 1, CharClass::NotNewline);
                lemma_span_end_bounds(t, j + 1, CharClass::NotNewline);
                lemma_lex_shift_lines(t, e, line, column + (e - j) as nat, k);
            } else {
                lemma_lex_shift_lines(t, j + 1, line, column + 1, k);
                lemma_shift_cons(
                    spec_token(SpecTokenKind::Slash, line, column),
                    lex_from(t, j + 1, line, column + 1),
                    k,
                );
            }
        } else if is_digit(c) {
            let e = span_end(t, j, CharClass::Digit);
            lemma_span_end_bounds(t, j, CharClass::Digit);
            lemma_lex_shift_lines(t, e, line, column + (e - j) as nat, k);
            let v = crate::lexer::digits_value(t.subrange(j as int, e as int));
            lemma_shift_cons(
                spec_token(SpecTokenKind::Number(v as i32), line, column),
                lex_from(t, e, line, column + (e - j) as nat),
                k,
            );
        } else if is_ident_start(c) {
            let e = span_end(t, j, CharClass::IdentPart);
            lemma_span_end_bounds(t, j, CharClass::IdentPart);
            lemma_lex_shift_lines(t, e, line, column + (e - j) as nat, k);
            lemma_shift_cons(
                spec_token(
                    crate::lexer::word_kind(t.subrange(j as int, e as int)),
                    line,
                    column,
                ),
                lex_from(t, e, line, column + (e - j) as nat),
                k,
            );
        } else if single_kind(c) is Some {
            lemma_lex_shift_lines(t, j + 1, line, column + 1, k);
            lemma_shift_cons(
                spec_token(single_kind(c).unwrap(), line, column),
                lex_from(t, j + 1, line, column + 1),
                k,
            );
        }
    }
}

/// Law: two source texts that each lex, joined by a newline, lex to the tokens
/// of the first without its end-of-file token, then the tokens of the second
/// moved down by one line more than the first has newlines.
pub proof fn lemma_lex_newline_join(s: Seq<char>, t: Seq<char>)
    requires
        spec_lex(s) is Ok,
        spec_lex(t) is Ok,
    ensures
        spec_lex(s + seq!['\n'] + t) == Ok::<Seq<SpecToken>, SpecError>(
            spec_lex(s)->Ok_0.drop_last() + shift_lines(spec_lex(t)->Ok_0, 1 + newline_count(s)),
        ),
{
    let a = spec_lex(s)->Ok_0;
    let b = spec_lex(t)->Ok_0;
    let w = seq!['\n'] + t;
    let p = s + seq!['\n'];
    let x = s + w;
    assert(s + seq!['\n'] + t =~= x);
    assert(p + t =~= x);
    lemma_lex_extend(s, w, 0, 1, 1);
    lemma_lex_last_line(s, 0, 1, 1);
    let lines = 1 + newline_count(s);
    assert(x[s.len() as int] == '\n');
    assert(lex_from(x, s.len(), a.last().line, a.last().column) == lex_from(
        x,
        s.len() + 1,
        a.last().line + 1,
        1,
    ));
    lemma_lex_offset(p, t, 0, a.last().line + 1, 1);
    lemma_lex_shift_lines(t, 0, 1, 1, lines);
    assert(a.last().line + 1 == 1 + lines);
}


/// The kinds of the tokens of a lexing that succeeds.
pub open spec fn kinds_of(r: Result<Seq<SpecToken>, SpecError>) -> Option<Seq<SpecTokenKind>> {
    match r {
        Ok(ts) => Some(ts.map_values(|t: SpecToken| t.kind)),
        Err(_) => None,
    }
}

proof fn lemma_kinds_of_cons(
    t1: SpecToken,
    r1: Result<Seq<SpecToken>, SpecError>,
    t2: SpecToken,
    r2: Result<Seq<SpecToken>, SpecError>,
)
    requires
        t1.kind == t2.kind,
        kinds_of(r1) == kinds_of(r2),
    ensures
        kinds_of(cons_token(t1, r1)) == kinds_of(cons_token(t2, r2)),
{
    if let (Ok(a), Ok(b)) = (r1, r2) {
        assert((seq![t1] + a).map_values(|x: SpecToken| x.kind) =~= seq![t1.kind] + a.map_values(
            |x: SpecToken| x.kind,
        ));
        assert((seq![t2] + b).map_values(|x: SpecToken| x.kind) =~= seq![t2.kind] + b.map_values(
            |x: SpecToken| x.kind,
        ));
    }
}

/// Whether lexing succeeds, and the kinds of the tokens, do not depend on the
/// position it starts from.
proof fn lemma_kinds_any_position(t: Seq<char>, j: nat, l1: nat, c1: nat, l2: nat, c2: nat)
    requires
        j <= t.len(),
    ensures
        kinds_of(lex_from(t, j, l1, c1)) == kinds_of(lex_from(t, j, l2, c2)),
    decreases t.len() - j,
{
    if j == t.len() {
        assert(seq![spec_token(SpecTokenKind::Eof, l1, c1)].map_values(|x: SpecToken| x.kind)
            =~= seq![spec_token(SpecTokenKind::Eof, l2, c2)].map_values(|x: SpecToken| x.kind));
    } else {
        let c = t[j as int];
        if c == ' ' || c == '\t' || c == '\r' {
            lemma_kinds_any_position(t, j + 1, l1, c1 + 1, l2, c2 + 1);
        } else if c == '\n' {
            lemma_kinds_any_position(t, j + 1, l1 + 1, 1, l2 + 1, 1);
        } else if c == '/' {
            if j + 1 < t.len() && t[j + 1int] == '/' {
                let e = span_end(t, j + 1, CharClass::NotNewline);
                lemma_span_end_bounds(t, j + 1, CharClass::NotNewline);
                lemma_kinds_any_position(t, e, l1, c1 + (e - j) as nat, l2, c2 + (e - j) as nat);
            } else {
                lemma_kinds_any_position(t, j + 1, l1, c1 + 1, l2, c2 + 1);
                lemma_kinds_of_cons(
                    spec_token(SpecTokenKind::Slash, l1, c1),
                    lex_from(t, j + 1, l1, c1 + 1),
                    spec_token(SpecTokenKind::Slash, l2, c2),
                    lex_from(t, j + 1, l2, c2 + 1),
                );
            }
        } else if is_digit(c) {
            let e = span_end(t, j, CharClass::Digit);
            lemma_span_end_bounds(t, j, CharClass::Digit);
            lemma_kinds_any_position(t, e, l1, c1 + (e - j) as nat, l2, c2 + (e - j) as nat);
            let v = crate::lexer::digits_value(t.subrange(j as int, e as int));
            lemma_kinds_of_cons(
                spec_token(SpecTokenKind::Number(v as i32), l1, c1),
                lex_from(t, e, l1, c1 + (e - j) as nat),
                spec_token(SpecTokenKind::Number(v as i32), l2, c2),
                lex_from(t, e, l2, c2 + (e - j) as nat),
            );
        } else if is_ident_start(c) {
            let e = span_end(t, j, CharClass::IdentPart);
            lemma_span_end_bounds(t, j, CharClass::IdentPart);
            lemma_kinds_any_position(t, e, l1, c1 + (e - j) as nat, l2, c2 + (e - j) as nat);
            let k = crate::lexer::word_kind(t.subrange(j as int, e as int));
            lemma_kinds_of_cons(
                spec_token(k, l1, c1),
                lex_from(t, e, l1, c1 + (e - j) as nat),
                spec_token(k, l2, c2),
                lex_from(t, e, l2, c2 + (e - j) as nat),
            );
        } else if single_kind(c) is Some {
            lemma_kinds_any_position(t, j + 1, l1, c1 + 1, l2, c2 + 1);
            lemma_kinds_of_cons(
                spec_token(single_kind(c).unwrap(), l1, c1),
                lex_from(t, j + 1, l1, c1 + 1),
                spec_token(single_kind(c).unwrap(), l2, c2),
                lex_from(t, j + 1, l2, c2 + 1),
            );
        }
    }
}

/// Law: two texts that each lex and join cleanly lex, together, to the kinds of
/// the first without its end of file, then the kinds of the second.
pub proof fn lemma_lex_concat(s: Seq<char>, w: Seq<char>)
    requires
        joins_cleanly(s, w),
        kinds_of(spec_lex(s)) is Some,
        kinds_of(spec_lex(w)) is Some,
    ensures
        kinds_of(spec_lex(s + w)) == Some(
            kinds_of(spec_lex(s))->0.drop_last() + kinds_of(spec_lex(w))->0,
        ),
{
    let a = spec_lex(s)->Ok_0;
    let x = s + w;
    lemma_lex_extend(s, w, 0, 1, 1);
    lemma_lex_from_tokens_nonempty(s, 0, 1, 1);
    let l = a.last().line;
    let c = a.last().column;
    lemma_lex_offset(s, w, 0, l, c);
    assert(lex_from(x, s.len(), l, c) == lex_from(w, 0, l, c));
    lemma_kinds_any_position(w, 0, l, c, 1, 1);
    let b = lex_from(w, 0, l, c)->Ok_0;
    assert((a.drop_last() + b).map_values(|t: SpecToken| t.kind) =~= a.map_values(
        |t: SpecToken| t.kind,
    ).drop_last() + b.map_values(|t: SpecToken| t.kind));
}


/// A blank: a character that separates tokens and is otherwise skipped.
pub open spec fn is_blank(c: char) -> bool {
    c == ' ' || c == '\t' || c == '\r'
}

/// `x` and `y` differ at most in which blank stands at a place.
pub open spec fn same_up_to_blanks(x: Seq<char>, y: Seq<char>) -> bool {
    &&& x.len() == y.len()
    &&& forall|k: int| 0 <= k < x.len() ==> #[trigger] x[k] == y[k] || (is_blank(x[k]) && is_blank(y[k]))
}

proof fn lemma_span_end_blanks(x: Seq<char>, y: Seq<char>, j: nat, class: CharClass)
    requires
        same_up_to_blanks(x, y),
    ensures
        span_end(x, j, class) == span_end(y, j, class),
    decreases x.len() - j,
{
    if j < x.len() {
        assert(x[j as int] == y[j as int] || (is_blank(x[j as int]) && is_blank(y[j as int])));
        lemma_span_end_blanks(x, y, j + 1, class);
    }
}

proof fn lemma_lex_blanks(x: Seq<char>, y: Seq<char>, i: nat, line: nat, column: nat)
    requires
        same_up_to_blanks(x, y),
    ensures
        lex_from(x, i, line, column) == lex_from(y, i, line, column),
    decreases x.len() - i,
{
    if i < x.len() {
        let c = x[i as int];
        assert(c == y[i as int] || (is_blank(c) && is_blank(y[i as int])));
        if is_blank(c) {
            lemma_lex_blanks(x, y, i + 1, line, column + 1);
        } else if c == '\n' {
            lemma_lex_blanks(x, y, i + 1, line + 1, 1);
        } else if c == '/' {
            if i + 1 < x.len() {
                assert(x[i + 1int] == y[i + 1int] || (is_blank(x[i + 1int]) && is_blank(
                    y[i + 1int],
                )));
            }
            if i + 1 < x.len() && x[i + 1int] == '/' {
                let e = span_end(x, i + 1, CharClass::NotNewline);
                lemma_span_end_bounds(x, i + 1, CharClass::NotNewline);
                lemma_span_end_blanks(x, y, i + 1, CharClass::NotNewline);
                lemma_lex_blanks(x, y, e, line, column + (e - i) as nat);
            } else {
                lemma_lex_blanks(x, y, i + 1, line, column + 1);
            }
        } else if is_digit(c) || is_ident_start(c) {
            let class = if is_digit(c) {
                CharClass::Digit
            } else {
                CharClass::IdentPart
            };
            let e = span_end(x, i, class);
            lemma_span_end_bounds(x, i, class);
            lemma_span_end_blanks(x, y, i, class);
            assert(x.subrange(i as int, e as int) =~= y.subrange(i as int, e as int)) by {
                assert forall|k: int| i <= k < e implies #[trigger] x[k] == y[k] by {
                    assert(in_class(x[k], class));
                    assert(x[k] == y[k] || (is_blank(x[k]) && is_blank(y[k])));
                }
            }
            lemma_lex_blanks(x, y, e, line, column + (e - i) as nat);
        } else if single_kind(c) is Some {
            lemma_lex_blanks(x, y, i + 1, line, column + 1);
        }
    }
}

/// Law: space, tab and carriage return are interchangeable blanks: two texts
/// that differ only in which blank stands at each place lex to the same tokens,
/// at the same lines and columns, or to the same error.
pub proof fn lemma_blanks_interchangeable(x: Seq<char>, y: Seq<char>)
    requires
        same_up_to_blanks(x, y),
    ensures
        spec_lex(x) == spec_lex(y),
{
    lemma_lex_blanks(x, y, 0, 1, 1);
}

/// Law: a carriage return or a tab lexes like a space, so a text with CRLF line
/// endings lexes like the same text with a space before each newline.
pub proof fn lemma_carriage_return_is_blank(s: Seq<char>, t: Seq<char>)
    ensures
        spec_lex(s + seq!['\r'] + t) == spec_lex(s + seq![' '] + t),
        spec_lex(s + seq!['\t'] + t) == spec_lex(s + seq![' '] + t),
{
    let sp = s + seq![' '] + t;
    let cr = s + seq!['\r'] + t;
    let tab = s + seq!['\t'] + t;
    assert forall|k: int| 0 <= k < cr.len() implies #[trigger] cr[k] == sp[k] || (is_blank(cr[k])
        && is_blank(sp[k])) by {
        if k < s.len() {
            assert(cr[k] == s[k] && sp[k] == s[k]);
        } else if k == s.len() {
        } else {
            assert(cr[k] == t[k - s.len() - 1] && sp[k] == t[k - s.len() - 1]);
        }
    }
    assert forall|k: int| 0 <= k < tab.len() implies #[trigger] tab[k] == sp[k] || (is_blank(tab[k])
        && is_blank(sp[k])) by {
        if k < s.len() {
            assert(tab[k] == s[k] && sp[k] == s[k]);
        } else if k == s.len() {
        } else {
            assert(tab[k] == t[k - s.len() - 1] && sp[k] == t[k - s.len() - 1]);
        }
    }
    lemma_blanks_interchangeable(cr, sp);
    lemma_blanks_interchangeable(tab, sp);
}

} // verus!
