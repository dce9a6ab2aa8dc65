//! The filter language as mathematics: its tokens, its grammar, and what a
//! filter text compiles to.
use vstd::prelude::*;
use crate::entry::{EntryModel, Text};
use crate::filter::{CmpOp, Expr, FieldRef, eval, expr_wf, resolve};
use crate::parse::{FilterError, FilterErrorKind, Tok, Token, fraction_ppm, is_space, is_word_char};

verus! {

/// A token: its kind, the span `start .. end` of the text, and its text
/// (a word, or the unescaped contents of a quoted string).
pub struct TokM {
    pub tok: Tok,
    pub start: int,
    pub end: int,
    pub text: Text,
}

pub open spec fn token_model(t: Token) -> TokM {
    TokM { tok: t.tok, start: t.start as int, end: t.end as int, text: t.text@ }
}

pub open spec fn tokens_model(ts: Seq<Token>) -> Seq<TokM> {
    ts.map_values(|t: Token| token_model(t))
}

/// Where a run of word characters starting at `j` ends.
pub open spec fn word_end(s: Text, j: int) -> int
    decreases s.len() - j,
{
    if 0 <= j < s.len() && is_word_char(s[j]) {
        word_end(s, j + 1)
    } else {
        j
    }
}

/// Scanning a quoted string from `j` (past the opening quote): the position
/// of the closing quote and the contents, where `\x` stands for `x`; `None`
/// when no quote closes it.
pub open spec fn quoted(s: Text, j: int) -> Option<(int, Text)>
    decreases s.len() - j,
{
    if j < 0 || j >= s.len() {
        None
    } else if s[j] == '"' {
        Some((j, Seq::empty()))
    } else if s[j] == '\\' && j + 1 < s.len() {
        match quoted(s, j + 2) {
            Some((e, t)) => Some((e, seq![s[j + 1]] + t)),
            None => None,
        }
    } else {
        match quoted(s, j + 1) {
            Some((e, t)) => Some((e, seq![s[j]] + t)),
            None => None,
        }
    }
}

pub open spec fn keyword(w: Text) -> Tok {
    if w == "AND"@ {
        Tok::And
    } else if w == "OR"@ {
        Tok::Or
    } else if w == "NOT"@ {
        Tok::Not
    } else {
        Tok::Word
    }
}

pub open spec fn fail(position: int, kind: FilterErrorKind) -> FilterError {
    FilterError { position: position as usize, kind }
}

pub open spec fn punct(tok: Tok, i: int, len: int) -> Result<TokM, FilterError> {
    Ok(TokM { tok, start: i, end: i + len, text: Seq::empty() })
}

/// The token that starts at `i`, a character that is not a space.
pub open spec fn token_at(s: Text, i: int) -> Result<TokM, FilterError> {
    let c = s[i];
    let eq_next = i + 1 < s.len() && s[i + 1] == '=';
    if c == '(' {
        punct(Tok::LParen, i, 1)
    } else if c == ')' {
        punct(Tok::RParen, i, 1)
    } else if c == ',' {
        punct(Tok::Comma, i, 1)
    } else if c == '=' {
        punct(Tok::Op(CmpOp::Eq), i, 1)
    } else if c == ':' {
        punct(Tok::Op(CmpOp::Has), i, 1)
    } else if c == '!' {
        if eq_next {
            punct(Tok::Op(CmpOp::Ne), i, 2)
        } else {
            Err(fail(i, FilterErrorKind::UnexpectedChar))
        }
    } else if c == '<' {
        if eq_next {
            punct(Tok::Op(CmpOp::Le), i, 2)
        } else {
            punct(Tok::Op(CmpOp::Lt), i, 1)
        }
    } else if c == '>' {
        if eq_next {
            punct(Tok::Op(CmpOp::Ge), i, 2)
        } else {
            punct(Tok::Op(CmpOp::Gt), i, 1)
        }
    } else if c == '"' {
        match quoted(s, i + 1) {
            Some((e, t)) => Ok(TokM { tok: Tok::Quoted, start: i, end: e + 1, text: t }),
            None => Err(fail(i, FilterErrorKind::UnterminatedString)),
        }
    } else {
        let e = word_end(s, i);
        Ok(TokM { tok: keyword(s.subrange(i, e)), start: i, end: e, text: s.subrange(i, e) })
    }
}

/// The tokens of `s` from position `i` on.
pub open spec fn lex_from(s: Text, i: int) -> Result<Seq<TokM>, FilterError>
    decreases s.len() - i,
{
    if i < 0 || i >= s.len() {
        Ok(Seq::empty())
    } else if is_space(s[i]) {
        lex_from(s, i + 1)
    } else {
        match token_at(s, i) {
            Err(e) => Err(e),
            Ok(t) => if t.end <= i || t.end > s.len() {
                Err(fail(i, FilterErrorKind::UnexpectedChar))
            } else {
                match lex_from(s, t.end) {
                    Ok(rest) => Ok(seq![t] + rest),
                    Err(e) => Err(e),
                }
            },
        }
    }
}

/// A field reference, with label keys and payload paths as texts.
pub enum FieldModel {
    LogName,
    ResourceType,
    ResourceLabel(Text),
    Label(Text),
    Severity,
    Timestamp,
    InsertId,
    Trace,
    SpanId,
    TextPayload,
    JsonPayload(Text),
    Unknown,
}

pub open spec fn prefixed(w: Text, p: Text) -> bool {
    w.len() > p.len() && w.subrange(0, p.len() as int) == p
}

/// The field a path names.
pub open spec fn field_of(w: Text) -> FieldModel {
    if w == "log_name"@ || w == "logName"@ {
        FieldModel::LogName
    } else if w == "resource.type"@ {
        FieldModel::ResourceType
    } else if prefixed(w, "resource.labels."@) {
        FieldModel::ResourceLabel(w.subrange("resource.labels."@.len() as int, w.len() as int))
    } else if prefixed(w, "labels."@) {
        FieldModel::Label(w.subrange("labels."@.len() as int, w.len() as int))
    } else if w == "severity"@ {
        FieldModel::Severity
    } else if w == "timestamp"@ {
        FieldModel::Timestamp
    } else if w == "insert_id"@ || w == "insertId"@ {
        FieldModel::InsertId
    } else if w == "trace"@ {
        FieldModel::Trace
    } else if w == "span_id"@ || w == "spanId"@ {
        FieldModel::SpanId
    } else if w == "textPayload"@ {
        FieldModel::TextPayload
    } else if prefixed(w, "jsonPayload."@) {
        FieldModel::JsonPayload(w.subrange("jsonPayload."@.len() as int, w.len() as int))
    } else {
        FieldModel::Unknown
    }
}

pub open spec fn field_model(f: FieldRef) -> FieldModel {
    match f {
        FieldRef::LogName => FieldModel::LogName,
        FieldRef::ResourceType => FieldModel::ResourceType,
        FieldRef::ResourceLabel(k) => FieldModel::ResourceLabel(k@),
        FieldRef::Label(k) => FieldModel::Label(k@),
        FieldRef::Severity => FieldModel::Severity,
        FieldRef::Timestamp => FieldModel::Timestamp,
        FieldRef::InsertId => FieldModel::InsertId,
        FieldRef::Trace => FieldModel::Trace,
        FieldRef::SpanId => FieldModel::SpanId,
        FieldRef::TextPayload => FieldModel::TextPayload,
        FieldRef::JsonPayload(p) => FieldModel::JsonPayload(p@),
        FieldRef::Unknown => FieldModel::Unknown,
    }
}

/// A filter expression, with literals as their texts.
pub enum ExprModel {
    All,
    Compare(FieldModel, CmpOp, Text),
    Sample(int),
    Not(Box<ExprModel>),
    And(Box<ExprModel>, Box<ExprModel>),
    Or(Box<ExprModel>, Box<ExprModel>),
}

pub open spec fn expr_model(x: Expr) -> ExprModel
    decreases x,
{
    match x {
        Expr::All => ExprModel::All,
        Expr::Compare { field, op, value } => ExprModel::Compare(field_model(field), op, value.text@),
        Expr::Sample { ppm } => ExprModel::Sample(ppm as int),
        Expr::Not(a) => ExprModel::Not(Box::new(expr_model(*a))),
        Expr::And(a, b) => ExprModel::And(Box::new(expr_model(*a)), Box::new(expr_model(*b))),
        Expr::Or(a, b) => ExprModel::Or(Box::new(expr_model(*a)), Box::new(expr_model(*b))),
    }
}

pub type Parsed = Result<(ExprModel, int), FilterError>;

pub open spec fn at_end(n: int) -> FilterError {
    fail(n, FilterErrorKind::UnexpectedEnd)
}

pub open spec fn bad_token(t: TokM) -> FilterError {
    fail(t.start, FilterErrorKind::UnexpectedToken)
}

pub open spec fn starts_operand(t: Tok) -> bool {
    t is Word || t is Quoted || t is LParen || t is Not
}

/// `or := and ("OR" and)*`; `n` is the length of the text, where an
/// unexpected end is reported.
pub open spec fn p_or(ts: Seq<TokM>, pos: int, n: int) -> Parsed
    decreases ts.len() - pos, 3int,
{
    match p_and(ts, pos, n) {
        Err(e) => Err(e),
        Ok((x, p)) => if p <= pos || p > ts.len() {
            Err(at_end(n))
        } else {
            or_tail(ts, x, p, n)
        },
    }
}

pub open spec fn or_tail(ts: Seq<TokM>, x: ExprModel, p: int, n: int) -> Parsed
    decreases ts.len() - p, 4int,
{
    if 0 <= p < ts.len() && ts[p].tok is Or {
        match p_and(ts, p + 1, n) {
            Err(e) => Err(e),
            Ok((y, q)) => if q <= p + 1 || q > ts.len() {
                Err(at_end(n))
            } else {
                or_tail(ts, ExprModel::Or(Box::new(x), Box::new(y)), q, n)
            },
        }
    } else {
        Ok((x, p))
    }
}

/// `and := unary (["AND"] unary)*`
pub open spec fn p_and(ts: Seq<TokM>, pos: int, n: int) -> Parsed
    decreases ts.len() - pos, 2int,
{
    match p_unary(ts, pos, n) {
        Err(e) => Err(e),
        Ok((x, p)) => if p <= pos || p > ts.len() {
            Err(at_end(n))
        } else {
            and_tail(ts, x, p, n)
        },
    }
}

pub open spec fn and_tail(ts: Seq<TokM>, x: ExprModel, p: int, n: int) -> Parsed
    decreases ts.len() - p, 5int,
{
    if 0 <= p < ts.len() && (ts[p].tok is And || starts_operand(ts[p].tok)) {
        let next = if ts[p].tok is And {
            p + 1
        } else {
            p
        };
        match p_unary(ts, next, n) {
            Err(e) => Err(e),
            Ok((y, q)) => if q <= next || q > ts.len() {
                Err(at_end(n))
            } else {
                and_tail(ts, ExprModel::And(Box::new(x), Box::new(y)), q, n)
            },
        }
    } else {
        Ok((x, p))
    }
}

/// `unary := "NOT" unary | primary`
pub open spec fn p_unary(ts: Seq<TokM>, pos: int, n: int) -> Parsed
    decreases ts.len() - pos, 1int,
{
    if 0 <= pos < ts.len() && ts[pos].tok is Not {
        match p_unary(ts, pos + 1, n) {
            Ok((x, p)) => Ok((ExprModel::Not(Box::new(x)), p)),
            Err(e) => Err(e),
        }
    } else {
        p_primary(ts, pos, n)
    }
}

/// Whether the token at `pos` has the kind `want` (one without contents).
pub open spec fn expect(ts: Seq<TokM>, pos: int, want: Tok, n: int) -> Option<FilterError> {
    if pos >= ts.len() {
        Some(at_end(n))
    } else if (ts[pos].tok is LParen && want is LParen) || (ts[pos].tok is RParen && want is RParen)
        || (ts[pos].tok is Comma && want is Comma) || (ts[pos].tok is Word && want is Word) {
        None
    } else {
        Some(bad_token(ts[pos]))
    }
}

/// `primary := "(" or ")" | "sample" "(" word "," fraction ")" | field op value`
pub open spec fn p_primary(ts: Seq<TokM>, pos: int, n: int) -> Parsed
    decreases ts.len() - pos, 0int,
{
    if pos < 0 || pos >= ts.len() {
        Err(at_end(n))
    } else if ts[pos].tok is LParen {
        match p_or(ts, pos + 1, n) {
            Err(e) => Err(e),
            Ok((x, p)) => match expect(ts, p, Tok::RParen, n) {
                Some(e) => Err(e),
                None => Ok((x, p + 1)),
            },
        }
    } else if ts[pos].tok is Word {
        if pos + 1 < ts.len() && ts[pos + 1].tok is LParen {
            if ts[pos].text != "sample"@ {
                Err(bad_token(ts[pos]))
            } else if expect(ts, pos + 2, Tok::Word, n) is Some {
                Err(expect(ts, pos + 2, Tok::Word, n)->0)
            } else if expect(ts, pos + 3, Tok::Comma, n) is Some {
                Err(expect(ts, pos + 3, Tok::Comma, n)->0)
            } else if expect(ts, pos + 4, Tok::Word, n) is Some {
                Err(expect(ts, pos + 4, Tok::Word, n)->0)
            } else if expect(ts, pos + 5, Tok::RParen, n) is Some {
                Err(expect(ts, pos + 5, Tok::RParen, n)->0)
            } else {
                match fraction_ppm(ts[pos + 4].text) {
                    Some(v) => Ok((ExprModel::Sample(v), pos + 6)),
                    None => Err(fail(ts[pos + 4].start, FilterErrorKind::BadFraction)),
                }
            }
        } else if pos + 1 >= ts.len() {
            Err(at_end(n))
        } else if !(ts[pos + 1].tok is Op) {
            Err(bad_token(ts[pos + 1]))
        } else if pos + 2 >= ts.len() {
            Err(at_end(n))
        } else if !(ts[pos + 2].tok is Word || ts[pos + 2].tok is Quoted) {
            Err(bad_token(ts[pos + 2]))
        } else {
            Ok(
                (
                    ExprModel::Compare(field_of(ts[pos].text), ts[pos + 1].tok->Op_0, ts[pos + 2].text),
                    pos + 3,
                ),
            )
        }
    } else {
        Err(bad_token(ts[pos]))
    }
}

/// What a filter text compiles to: blank text selects everything; other
/// text must tokenize and parse completely.
pub open spec fn filter_syntax(s: Text) -> Result<ExprModel, FilterError> {
    match lex_from(s, 0) {
        Err(e) => Err(e),
        Ok(ts) => if ts.len() == 0 {
            Ok(ExprModel::All)
        } else {
            match p_or(ts, 0, s.len() as int) {
                Err(e) => Err(e),
                Ok((x, p)) => if p < ts.len() {
                    Err(bad_token(ts[p]))
                } else {
                    Ok(x)
                },
            }
        },
    }
}

/// Evaluation depends on an expression's model alone: two well-formed
/// expressions with the same model, such as two compilations of one text,
/// give every entry the same outcome.
pub proof fn lemma_eval_by_model(x1: Expr, x2: Expr, e: EntryModel)
    requires
        expr_wf(x1),
        expr_wf(x2),
        expr_model(x1) == expr_model(x2),
    ensures
        eval(x1, e) == eval(x2, e),
    decreases x1,
{
    match x1 {
        Expr::Compare { field: f1, op: o1, value: v1 } => {
            if let Expr::Compare { field: f2, op: o2, value: v2 } = x2 {
                assert(field_model(f1) == field_model(f2));
                assert(resolve(f1, e) == resolve(f2, e));
                assert(v1.text@ == v2.text@);
                assert(v1.number == v2.number);
                assert(v1.level == v2.level);
                assert(v1.instant == v2.instant);
            }
        },
        Expr::Not(a1) => {
            if let Expr::Not(a2) = x2 {
                lemma_eval_by_model(*a1, *a2, e);
            }
        },
        Expr::And(a1, b1) => {
            if let Expr::And(a2, b2) = x2 {
                lemma_eval_by_model(*a1, *a2, e);
                lemma_eval_by_model(*b1, *b2, e);
            }
        },
        Expr::Or(a1, b1) => {
            if let Expr::Or(a2, b2) = x2 {
                lemma_eval_by_model(*a1, *a2, e);
                lemma_eval_by_model(*b1, *b2, e);
            }
        },
        _ => {},
    }
}

} // verus!
