//! Filter syntax: tokens, field paths, and a recursive-descent parser.
use vstd::prelude::*;
use crate::entry::Text;
use crate::filter::{CmpOp, Expr, FieldRef, Filter, Literal, expr_wf};
use crate::grammar::{
    ExprModel, Parsed, TokM, and_tail, at_end, bad_token, expect, expr_model, field_model, field_of,
    filter_syntax, lex_from, or_tail, p_and, p_or, p_primary, p_unary, quoted, starts_operand,
    token_model, tokens_model, word_end,
};
use crate::text::{all_digits, chars_eq_str, digits_value, is_digit, lemma_pow10_add, pow10, to_chars};

verus! {

/// Why a filter failed to compile.
#[derive(Clone, Copy, Debug, PartialEq, Eq, Structural)]
pub enum FilterErrorKind {
    UnexpectedChar,
    UnterminatedString,
    UnexpectedToken,
    UnexpectedEnd,
    BadFraction,
}

/// A compile error and the character position it was found at.
#[derive(Clone, Copy, Debug, PartialEq, Eq, Structural)]
pub struct FilterError {
    pub position: usize,
    pub kind: FilterErrorKind,
}

#[derive(Debug)]
pub enum Tok {
    LParen,
    RParen,
    Comma,
    And,
    Or,
    Not,
    Op(CmpOp),
    Word,
    Quoted,
}

/// A token: its kind, the characters it spans, and its text (the word, or
/// the unescaped contents of a quoted string).
#[derive(Debug)]
pub struct Token {
    pub tok: Tok,
    pub start: usize,
    pub end: usize,
    pub text: Vec<char>,
}

pub open spec fn is_space(c: char) -> bool {
    c == ' ' || c == '\t' || c == '\n' || c == '\r'
}

pub open spec fn is_word_char(c: char) -> bool {
    !is_space(c) && c != '(' && c != ')' && c != '=' && c != '!' && c != '<' && c != '>' && c
        != ':' && c != ',' && c != '"'
}

pub open spec fn blank(s: Text) -> bool {
    forall|i: int| 0 <= i < s.len() ==> #[trigger] is_space(s[i])
}

pub open spec fn token_wf(t: Token, src: Text) -> bool {
    &&& t.start < t.end <= src.len()
    &&& (t.tok is Word ==> t.text@ == src.subrange(t.start as int, t.end as int))
}

pub open spec fn tokens_wf(ts: Seq<Token>, src: Text) -> bool {
    forall|i: int| 0 <= i < ts.len() ==> token_wf(#[trigger] ts[i], src)
}

fn is_space_char(c: char) -> (r: bool)
    ensures
        r == is_space(c),
{
    c == ' ' || c == '\t' || c == '\n' || c == '\r'
}

fn is_word_char_exec(c: char) -> (r: bool)
    ensures
        r == is_word_char(c),
{
    !is_space_char(c) && c != '(' && c != ')' && c != '=' && c != '!' && c != '<' && c != '>'
        && c != ':' && c != ',' && c != '"'
}

/// The characters of `v` from `a` to `b`.
pub fn slice_chars(v: &Vec<char>, a: usize, b: usize) -> (r: Vec<char>)
    requires
        a <= b <= v@.len(),
    ensures
        r@ == v@.subrange(a as int, b as int),
{
    let mut r: Vec<char> = Vec::new();
    let mut i: usize = a;
    while i < b
        invariant
            a <= i <= b,
            b <= v@.len(),
            r@ == v@.subrange(a as int, i as int),
        decreases b - i,
    {
        r.push(v[i]);
        i = i + 1;
        assert(r@ =~= v@.subrange(a as int, i as int));
    }
    r
}

pub open spec fn after(ts: Seq<TokM>, r: Result<Seq<TokM>, FilterError>) -> Result<Seq<TokM>, FilterError> {
    match r {
        Ok(rest) => Ok(ts + rest),
        Err(e) => Err(e),
    }
}

pub open spec fn quoted_after(t: Text, r: Option<(int, Text)>) -> Option<(int, Text)> {
    match r {
        Some((e, u)) => Some((e, t + u)),
        None => None,
    }
}

proof fn lemma_after_push(ts: Seq<TokM>, t: TokM, r: Result<Seq<TokM>, FilterError>)
    ensures
        after(ts, after(seq![t], r)) == after(ts.push(t), r),
{
    if let Ok(rest) = r {
        assert(ts + (seq![t] + rest) =~= ts.push(t) + rest);
    }
}

proof fn lemma_quoted_after_push(t: Text, c: char, r: Option<(int, Text)>)
    ensures
        quoted_after(t, quoted_after(seq![c], r)) == quoted_after(t.push(c), r),
{
    if let Some((e, u)) = r {
        assert(t + (seq![c] + u) =~= t.push(c) + u);
    }
}

/// Splits a filter into tokens (see `lex_from`).
pub fn tokenize(s: &Vec<char>) -> (r: Result<Vec<Token>, FilterError>)
    ensures
        match r {
            Ok(ts) => tokens_wf(ts@, s@) && lex_from(s@, 0) == Ok::<Seq<TokM>, FilterError>(tokens_model(ts@)) && (ts@.len()
                == 0 <==> blank(s@)),
            Err(e) => e.position < s@.len() && lex_from(s@, 0) == Err::<Seq<TokM>, FilterError>(e),
        },
        blank(s@) ==> r is Ok,
{
    let n = s.len();
    let mut ts: Vec<Token> = Vec::new();
    let mut i: usize = 0;
    assert(after(Seq::empty(), lex_from(s@, 0)) == lex_from(s@, 0)) by {
        if let Ok(rest) = lex_from(s@, 0) {
            assert(Seq::<TokM>::empty() + rest =~= rest);
        }
    }
    while i < n
        invariant
            n == s@.len(),
            i <= n,
            tokens_wf(ts@, s@),
            ts@.len() == 0 <==> blank(s@.subrange(0, i as int)),
            lex_from(s@, 0) == after(tokens_model(ts@), lex_from(s@, i as int)),
        decreases n - i,
    {
        let c = s[i];
        let start = i;
        if is_space_char(c) {
            i = i + 1;
            proof {
                let p = s@.subrange(0, i as int);
                if ts@.len() == 0 {
                    assert forall|j: int| 0 <= j < p.len() implies #[trigger] is_space(p[j]) by {
                        if j < i - 1 {
                            assert(p[j] == s@.subrange(0, i - 1)[j]);
                        }
                    }
                } else {
                    assert(!blank(s@.subrange(0, i - 1)));
                    let q = s@.subrange(0, i - 1);
                    let j = choose|j: int| 0 <= j < q.len() && !is_space(q[j]);
                    assert(p[j] == q[j]);
                }
            }
            continue;
        }
        assert(s@.subrange(0, i as int + 1)[i as int] == c);
        assert(!blank(s@)) by {
            assert(!is_space(s@[i as int]));
        }
        let eq_next = i + 1 < n && s[i + 1] == '=';
        let tok = if c == '(' {
            i = i + 1;
            Tok::LParen
        } else if c == ')' {
            i = i + 1;
            Tok::RParen
        } else if c == ',' {
            i = i + 1;
            Tok::Comma
        } else if c == '=' {
            i = i + 1;
            Tok::Op(CmpOp::Eq)
        } else if c == ':' {
            i = i + 1;
            Tok::Op(CmpOp::Has)
        } else if c == '!' {
            if eq_next {
                i = i + 2;
                Tok::Op(CmpOp::Ne)
            } else {
                return Err(FilterError { position: i, kind: FilterErrorKind::UnexpectedChar });
            }
        } else if c == '<' {
            if eq_next {
                i = i + 2;
                Tok::Op(CmpOp::Le)
            } else {
                i = i + 1;
                Tok::Op(CmpOp::Lt)
            }
        } else if c == '>' {
            if eq_next {
                i = i + 2;
                Tok::Op(CmpOp::Ge)
            } else {
                i = i + 1;
                Tok::Op(CmpOp::Gt)
            }
        } else if c == '"' {
            let mut text: Vec<char> = Vec::new();
            let mut j: usize = i + 1;
            let mut closed = false;
            assert(quoted_after(text@, quoted(s@, j as int)) == quoted(s@, i + 1)) by {
                if let Some((e, u)) = quoted(s@, j as int) {
                    assert(text@ + u =~= u);
                }
            }
            while j < n
                invariant_except_break
                    !closed,
                invariant
                    n == s@.len(),
                    i < j <= n,
                    quoted_after(text@, quoted(s@, j as int)) == quoted(s@, i + 1),
                ensures
                    i < j <= n,
                    closed ==> j < n && quoted(s@, i + 1) == Some((j as int, text@)),
                    !closed ==> quoted(s@, i + 1) is None,
                decreases n - j,
            {
                let d = s[j];
                if d == '"' {
                    closed = true;
                    assert(text@ + Seq::<char>::empty() =~= text@);
                    break;
                } else if d == '\\' && j + 1 < n {
                    proof {
                        lemma_quoted_after_push(text@, s@[j + 1], quoted(s@, j + 2));
                    }
                    text.push(s[j + 1]);
                    j = j + 2;
                } else {
                    proof {
                        lemma_quoted_after_push(text@, d, quoted(s@, j + 1));
                    }
                    text.push(d);
                    j = j + 1;
                }
            }
            if !closed {
                return Err(FilterError { position: i, kind: FilterErrorKind::UnterminatedString });
            }
            i = j + 1;
            let t = Token { tok: Tok::Quoted, start, end: i, text };
            proof {
                lemma_after_push(tokens_model(ts@), token_model(t), lex_from(s@, i as int));
            }
            let ghost before = tokens_model(ts@);
            ts.push(t);
            proof {
                assert(tokens_model(ts@) =~= before.push(token_model(t)));
                assert(token_wf(ts@[ts@.len() - 1], s@));
                assert(!is_space(s@.subrange(0, i as int)[start as int]));
            }
            continue;
        } else {
            let mut j: usize = i;
            while j < n && is_word_char_exec(s[j])
                invariant
                    n == s@.len(),
                    i <= j <= n,
                    word_end(s@, i as int) == word_end(s@, j as int),
                decreases n - j,
            {
                j = j + 1;
            }
            assert(j > i);
            i = j;
            let word = slice_chars(s, start, i);
            let tok = if chars_eq_str(&word, "AND") {
                Tok::And
            } else if chars_eq_str(&word, "OR") {
                Tok::Or
            } else if chars_eq_str(&word, "NOT") {
                Tok::Not
            } else {
                Tok::Word
            };
            let t = Token { tok, start, end: i, text: word };
            proof {
                lemma_after_push(tokens_model(ts@), token_model(t), lex_from(s@, i as int));
            }
            let ghost before = tokens_model(ts@);
            ts.push(t);
            proof {
                assert(tokens_model(ts@) =~= before.push(token_model(t)));
                assert(token_wf(ts@[ts@.len() - 1], s@));
                assert(!is_space(s@.subrange(0, i as int)[start as int]));
            }
            continue;
        };
        let t = Token { tok, start, end: i, text: Vec::new() };
        proof {
            assert(t.text@ =~= Seq::<char>::empty());
            lemma_after_push(tokens_model(ts@), token_model(t), lex_from(s@, i as int));
        }
        let ghost before = tokens_model(ts@);
        ts.push(t);
        proof {
            assert(tokens_model(ts@) =~= before.push(token_model(t)));
            assert(token_wf(ts@[ts@.len() - 1], s@));
            assert(!is_space(s@.subrange(0, i as int)[start as int]));
        }
    }
    assert(s@.subrange(0, n as int) =~= s@);
    assert(tokens_model(ts@) + Seq::<TokM>::empty() =~= tokens_model(ts@));
    Ok(ts)
}

/// Whether `w` begins with `lit`.
pub fn starts_with_str(w: &Vec<char>, lit: &str) -> (r: bool)
    ensures
        r == (lit@.len() <= w@.len() && w@.subrange(0, lit@.len() as int) == lit@),
{
    let n = lit.unicode_len();
    if n > w.len() {
        return false;
    }
    let head = slice_chars(w, 0, n);
    chars_eq_str(&head, lit)
}

/// The rest of `src` after `k` characters, as a string.
fn tail_string(src: &str, k: usize) -> (r: String)
    requires
        k <= src@.len(),
    ensures
        r@ == src@.subrange(k as int, src@.len() as int),
{
    let n = src.unicode_len();
    src.substring_char(k, n).to_string()
}

/// Reads a field path.
pub fn parse_field(w: &Vec<char>, word: &str) -> (r: FieldRef)
    requires
        word@ == w@,
    ensures
        field_model(r) == field_of(w@),
{
    proof {
        reveal_strlit("resource.labels.");
        reveal_strlit("labels.");
        reveal_strlit("jsonPayload.");
    }
    if chars_eq_str(w, "log_name") || chars_eq_str(w, "logName") {
        FieldRef::LogName
    } else if chars_eq_str(w, "resource.type") {
        FieldRef::ResourceType
    } else if w.len() > 16 && starts_with_str(w, "resource.labels.") {
        let k = tail_string(word, 16);
        assert(w@ =~= "resource.labels."@ + k@);
        FieldRef::ResourceLabel(k)
    } else if w.len() > 7 && starts_with_str(w, "labels.") {
        let k = tail_string(word, 7);
        assert(w@ =~= "labels."@ + k@);
        FieldRef::Label(k)
    } else if chars_eq_str(w, "severity") {
        FieldRef::Severity
    } else if chars_eq_str(w, "timestamp") {
        FieldRef::Timestamp
    } else if chars_eq_str(w, "insert_id") || chars_eq_str(w, "insertId") {
        FieldRef::InsertId
    } else if chars_eq_str(w, "trace") {
        FieldRef::Trace
    } else if chars_eq_str(w, "span_id") || chars_eq_str(w, "spanId") {
        FieldRef::SpanId
    } else if chars_eq_str(w, "textPayload") {
        FieldRef::TextPayload
    } else if w.len() > 12 && starts_with_str(w, "jsonPayload.") {
        let k = tail_string(word, 12);
        assert(w@ =~= "jsonPayload."@ + k@);
        FieldRef::JsonPayload(k)
    } else {
        FieldRef::Unknown
    }
}

/// The fraction that a literal such as `0.25` spells, in parts per million:
/// `0`, `1`, or `0.` or `1.` followed by one to six digits, at most one.
pub open spec fn fraction_ppm(t: Text) -> Option<int> {
    if t == "0"@ {
        Some(0)
    } else if t == "1"@ {
        Some(1_000_000)
    } else if 3 <= t.len() <= 8 && t[1] == '.' && all_digits(t.skip(2)) {
        if t[0] == '0' {
            Some(digits_value(t.skip(2)) * pow10((8 - t.len()) as nat))
        } else if t[0] == '1' && digits_value(t.skip(2)) == 0 {
            Some(1_000_000)
        } else {
            None
        }
    } else {
        None
    }
}

proof fn lemma_digits_bound(s: Text)
    requires
        forall|i: int| 0 <= i < s.len() ==> #[trigger] is_digit(s[i]),
    ensures
        0 <= digits_value(s) < pow10(s.len()),
    decreases s.len(),
{
    if s.len() > 0 {
        assert(is_digit(s[s.len() - 1]));
        lemma_digits_bound(s.drop_last());
        assert(s.drop_last().len() == s.len() - 1);
    }
}

/// Reads a sampling fraction (see `fraction_ppm`).
pub fn parse_fraction(t: &Vec<char>) -> (r: Option<u32>)
    ensures
        match r {
            Some(v) => fraction_ppm(t@) == Some(v as int) && v <= 1_000_000,
            None => fraction_ppm(t@) is None,
        },
{
    if chars_eq_str(t, "0") {
        return Some(0);
    }
    if chars_eq_str(t, "1") {
        return Some(1_000_000);
    }
    let n = t.len();
    if n < 3 || n > 8 || t[1] != '.' {
        return None;
    }
    let mut v: u32 = 0;
    let mut i: usize = 2;
    let ghost d = t@.skip(2);
    while i < n
        invariant
            n == t@.len(),
            3 <= n <= 8,
            2 <= i <= n,
            t@ != "0"@,
            t@ != "1"@,
            d == t@.skip(2),
            forall|j: int| 0 <= j < i - 2 ==> #[trigger] is_digit(d[j]),
            v == digits_value(d.subrange(0, i - 2)),
            v < pow10((i - 2) as nat),
        decreases n - i,
    {
        let c = t[i];
        if !('0' <= c && c <= '9') {
            assert(!is_digit(d[i - 2]));
            return None;
        }
        assert(d.subrange(0, i - 1).drop_last() =~= d.subrange(0, i - 2));
        assert(pow10((i - 1) as nat) == 10 * pow10((i - 2) as nat));
        assert(pow10((i - 2) as nat) <= 100_000) by {
            reveal_with_fuel(pow10, 7);
        }
        v = v * 10 + (c as u32 - '0' as u32);
        i = i + 1;
        assert(is_digit(d[i - 3]));
    }
    assert(d.subrange(0, n - 2) =~= d);
    if t[0] == '0' {
        let mut scale: u32 = 1;
        let mut k: usize = n;
        while k < 8
            invariant
                3 <= n <= k <= 8,
                scale == pow10((k - n) as nat),
                scale <= 100_000,
            decreases 8 - k,
        {
            assert(pow10((k + 1 - n) as nat) == 10 * pow10((k - n) as nat));
            assert(k - n < 5);
            assert(pow10((k - n) as nat) <= 10000) by {
                reveal_with_fuel(pow10, 7);
            }
            scale = scale * 10;
            k = k + 1;
        }
        assert(v < pow10((n - 2) as nat));
        assert(v * scale < 1_000_000) by {
            assert(pow10((n - 2) as nat) * pow10((8 - n) as nat) == pow10(6)) by {
                lemma_pow10_add((n - 2) as nat, (8 - n) as nat);
            }
            assert(pow10(6) == 1_000_000) by {
                reveal_with_fuel(pow10, 7);
            }
            assert(v * scale < pow10((n - 2) as nat) * scale) by (nonlinear_arith)
                requires
                    v < pow10((n - 2) as nat),
                    scale >= 1,
            ;
        }
        assert(pow10(0) == 1);
        Some(v * scale)
    } else if t[0] == '1' && v == 0 {
        Some(1_000_000)
    } else {
        None
    }
}

pub open spec fn errors_in(r: Result<(Expr, usize), FilterError>, pos: usize, ts: Seq<Token>, end: int) -> bool {
    match r {
        Ok((x, p)) => pos < p <= ts.len() && expr_wf(x),
        Err(e) => e.position <= end,
    }
}

/// A parse result as the grammar states it.
pub open spec fn parsed(r: Result<(Expr, usize), FilterError>) -> Parsed {
    match r {
        Ok((x, p)) => Ok((expr_model(x), p as int)),
        Err(e) => Err(e),
    }
}

pub open spec fn parse_req(src: &str, s: &Vec<char>, ts: Seq<Token>, pos: usize) -> bool {
    &&& src@ == s@
    &&& tokens_wf(ts, s@)
    &&& pos <= ts.len()
}

fn at_end_error(s: &Vec<char>) -> (r: FilterError)
    ensures
        r == at_end(s@.len() as int),
{
    FilterError { position: s.len(), kind: FilterErrorKind::UnexpectedEnd }
}

fn token_error(t: &Token) -> (r: FilterError)
    ensures
        r == bad_token(token_model(*t)),
{
    FilterError { position: t.start, kind: FilterErrorKind::UnexpectedToken }
}

/// `or := and ("OR" and)*`
fn parse_or(src: &str, s: &Vec<char>, ts: &Vec<Token>, pos: usize) -> (r: Result<
    (Expr, usize),
    FilterError,
>)
    requires
        parse_req(src, s, ts@, pos),
    ensures
        errors_in(r, pos, ts@, s@.len() as int),
        parsed(r) == p_or(tokens_model(ts@), pos as int, s@.len() as int),
    decreases ts@.len() - pos, 3nat,
{
    let ghost tm = tokens_model(ts@);
    let ghost n = s@.len() as int;
    let (mut x, mut p) = match parse_and(src, s, ts, pos) {
        Ok(v) => v,
        Err(e) => return Err(e),
    };
    while p < ts.len() && matches!(ts[p].tok, Tok::Or)
        invariant
            parse_req(src, s, ts@, pos),
            tm == tokens_model(ts@),
            n == s@.len(),
            pos < p <= ts@.len(),
            expr_wf(x),
            p_or(tm, pos as int, n) == or_tail(tm, expr_model(x), p as int, n),
        decreases ts@.len() - p,
    {
        assert(tm[p as int] == token_model(ts@[p as int]));
        let (y, q) = match parse_and(src, s, ts, p + 1) {
            Ok(v) => v,
            Err(e) => return Err(e),
        };
        x = Expr::Or(Box::new(x), Box::new(y));
        p = q;
    }
    proof {
        if p < ts@.len() {
            assert(tm[p as int] == token_model(ts@[p as int]));
        }
    }
    Ok((x, p))
}

fn opens_operand(t: &Tok) -> (r: bool)
    ensures
        r == starts_operand(*t),
{
    match t {
        Tok::Word => true,
        Tok::Quoted => true,
        Tok::LParen => true,
        Tok::Not => true,
        _ => false,
    }
}

/// `and := unary (["AND"] unary)*`: juxtaposed terms are joined by `AND`.
fn parse_and(src: &str, s: &Vec<char>, ts: &Vec<Token>, pos: usize) -> (r: Result<
    (Expr, usize),
    FilterError,
>)
    requires
        parse_req(src, s, ts@, pos),
    ensures
        errors_in(r, pos, ts@, s@.len() as int),
        parsed(r) == p_and(tokens_model(ts@), pos as int, s@.len() as int),
    decreases ts@.len() - pos, 2nat,
{
    let ghost tm = tokens_model(ts@);
    let ghost n = s@.len() as int;
    let (mut x, mut p) = match parse_unary(src, s, ts, pos) {
        Ok(v) => v,
        Err(e) => return Err(e),
    };
    while p < ts.len() && (matches!(ts[p].tok, Tok::And) || opens_operand(&ts[p].tok))
        invariant
            parse_req(src, s, ts@, pos),
            tm == tokens_model(ts@),
            n == s@.len(),
            pos < p <= ts@.len(),
            expr_wf(x),
            p_and(tm, pos as int, n) == and_tail(tm, expr_model(x), p as int, n),
        decreases ts@.len() - p,
    {
        assert(tm[p as int] == token_model(ts@[p as int]));
        let next = if matches!(ts[p].tok, Tok::And) {
            p + 1
        } else {
            p
        };
        let (y, q) = match parse_unary(src, s, ts, next) {
            Ok(v) => v,
            Err(e) => return Err(e),
        };
        x = Expr::And(Box::new(x), Box::new(y));
        p = q;
    }
    proof {
        if p < ts@.len() {
            assert(tm[p as int] == token_model(ts@[p as int]));
        }
    }
    Ok((x, p))
}

/// `unary := "NOT" unary | primary`
fn parse_unary(src: &str, s: &Vec<char>, ts: &Vec<Token>, pos: usize) -> (r: Result<
    (Expr, usize),
    FilterError,
>)
    requires
        parse_req(src, s, ts@, pos),
    ensures
        errors_in(r, pos, ts@, s@.len() as int),
        parsed(r) == p_unary(tokens_model(ts@), pos as int, s@.len() as int),
    decreases ts@.len() - pos, 1nat,
{
    proof {
        if pos < ts@.len() {
            assert(tokens_model(ts@)[pos as int] == token_model(ts@[pos as int]));
        }
    }
    if pos < ts.len() && matches!(ts[pos].tok, Tok::Not) {
        match parse_unary(src, s, ts, pos + 1) {
            Ok((x, p)) => Ok((Expr::Not(Box::new(x)), p)),
            Err(e) => Err(e),
        }
    } else {
        parse_primary(src, s, ts, pos)
    }
}

fn expect_tok(s: &Vec<char>, ts: &Vec<Token>, pos: usize, want: &Tok) -> (r: Result<(), FilterError>)
    requires
        tokens_wf(ts@, s@),
    ensures
        r is Ok ==> pos < ts@.len(),
        r matches Err(e) ==> e.position <= s@.len(),
        match r {
            Ok(()) => expect(tokens_model(ts@), pos as int, *want, s@.len() as int) is None,
            Err(e) => expect(tokens_model(ts@), pos as int, *want, s@.len() as int) == Some(e),
        },
{
    if pos >= ts.len() {
        return Err(at_end_error(s));
    }
    assert(tokens_model(ts@)[pos as int] == token_model(ts@[pos as int]));
    let ok = match (&ts[pos].tok, want) {
        (Tok::LParen, Tok::LParen) => true,
        (Tok::RParen, Tok::RParen) => true,
        (Tok::Comma, Tok::Comma) => true,
        (Tok::Word, Tok::Word) => true,
        _ => false,
    };
    if ok {
        Ok(())
    } else {
        assert(token_wf(ts@[pos as int], s@));
        Err(token_error(&ts[pos]))
    }
}

/// `primary := "(" or ")" | "sample" "(" word "," word ")" | word op value`
fn parse_primary(src: &str, s: &Vec<char>, ts: &Vec<Token>, pos: usize) -> (r: Result<
    (Expr, usize),
    FilterError,
>)
    requires
        parse_req(src, s, ts@, pos),
    ensures
        errors_in(r, pos, ts@, s@.len() as int),
        parsed(r) == p_primary(tokens_model(ts@), pos as int, s@.len() as int),
    decreases ts@.len() - pos, 0nat,
{
    let ghost tm = tokens_model(ts@);
    if pos >= ts.len() {
        return Err(at_end_error(s));
    }
    let t = &ts[pos];
    assert(token_wf(ts@[pos as int], s@));
    assert(tm[pos as int] == token_model(ts@[pos as int]));
    match t.tok {
        Tok::LParen => {
            let (x, p) = match parse_or(src, s, ts, pos + 1) {
                Ok(v) => v,
                Err(e) => return Err(e),
            };
            match expect_tok(s, ts, p, &Tok::RParen) {
                Ok(()) => Ok((x, p + 1)),
                Err(e) => Err(e),
            }
        },
        Tok::Word => {
            if pos + 1 < ts.len() && matches!(ts[pos + 1].tok, Tok::LParen) {
                assert(tm[pos + 1] == token_model(ts@[pos + 1]));
                if !chars_eq_str(&t.text, "sample") {
                    return Err(token_error(t));
                }
                match expect_tok(s, ts, pos + 2, &Tok::Word) {
                    Ok(()) => {},
                    Err(e) => return Err(e),
                }
                match expect_tok(s, ts, pos + 3, &Tok::Comma) {
                    Ok(()) => {},
                    Err(e) => return Err(e),
                }
                match expect_tok(s, ts, pos + 4, &Tok::Word) {
                    Ok(()) => {},
                    Err(e) => return Err(e),
                }
                match expect_tok(s, ts, pos + 5, &Tok::RParen) {
                    Ok(()) => {},
                    Err(e) => return Err(e),
                }
                let f = &ts[pos + 4];
                assert(token_wf(ts@[pos + 4], s@));
                assert(tm[pos + 4] == token_model(ts@[pos + 4]));
                match parse_fraction(&f.text) {
                    Some(ppm) => Ok((Expr::Sample { ppm }, pos + 6)),
                    None => Err(FilterError { position: f.start, kind: FilterErrorKind::BadFraction }),
                }
            } else {
                if pos + 1 >= ts.len() {
                    return Err(at_end_error(s));
                }
                assert(tm[pos + 1] == token_model(ts@[pos + 1]));
                let op = match ts[pos + 1].tok {
                    Tok::Op(op) => op,
                    _ => {
                        assert(token_wf(ts@[pos + 1], s@));
                        return Err(token_error(&ts[pos + 1]));
                    },
                };
                if pos + 2 >= ts.len() {
                    return Err(at_end_error(s));
                }
                let v = &ts[pos + 2];
                assert(token_wf(ts@[pos + 2], s@));
                assert(tm[pos + 2] == token_model(ts@[pos + 2]));
                match v.tok {
                    Tok::Word => {},
                    Tok::Quoted => {},
                    _ => return Err(token_error(v)),
                }
                let word = src.substring_char(t.start, t.end);
                let field = parse_field(&t.text, word);
                let mut text: Vec<char> = Vec::new();
                let mut i: usize = 0;
                while i < v.text.len()
                    invariant
                        i <= v.text@.len(),
                        text@ == v.text@.subrange(0, i as int),
                    decreases v.text@.len() - i,
                {
                    text.push(v.text[i]);
                    i = i + 1;
                    assert(text@ =~= v.text@.subrange(0, i as int));
                }
                assert(v.text@.subrange(0, i as int) =~= v.text@);
                Ok((Expr::Compare { field, op, value: Literal::from_chars(text) }, pos + 3))
            }
        },
        _ => Err(token_error(t)),
    }
}

/// Compiles a filter: the result is what `filter_syntax` gives for the
/// text, and a blank filter selects every entry.
pub fn compile(src: &str) -> (r: Result<Filter, FilterError>)
    ensures
        match r {
            Ok(f) => f.wf() && filter_syntax(src@) == Ok::<ExprModel, FilterError>(expr_model(f.expr)),
            Err(e) => e.position <= src@.len() && filter_syntax(src@) == Err::<ExprModel, FilterError>(e),
        },
        blank(src@) ==> (r matches Ok(f) && f.expr is All),
{
    let s = to_chars(src);
    let ts = match tokenize(&s) {
        Ok(ts) => ts,
        Err(e) => return Err(e),
    };
    if ts.len() == 0 {
        return Ok(Filter::match_all());
    }
    match parse_or(src, &s, &ts, 0) {
        Ok((x, p)) => {
            if p < ts.len() {
                assert(token_wf(ts@[p as int], s@));
                assert(tokens_model(ts@)[p as int] == token_model(ts@[p as int]));
                Err(token_error(&ts[p]))
            } else {
                Ok(Filter { expr: x })
            }
        },
        Err(e) => Err(e),
    }
}

} // verus!
