//! Compiled filters and their three-valued evaluation against entries.
use vstd::prelude::*;
use crate::entry::{
    EntryModel, JsonScalar, LogEntry, Payload, PayloadModel, ScalarModel, Text, Timestamp,
    field_lookup, find_field, find_label, label_lookup,
};
use crate::civil::{instant_value, parse_instant};
use crate::text::{
    chars_eq_str, compare_text, contains, contains_text, int_literal, parse_int, text_lt, to_chars,
};

verus! {

/// Outcome of a predicate: a comparison against a field the entry lacks is
/// `Unknown`, which only the top level turns into "no match".
#[derive(Clone, Copy, Debug, PartialEq, Eq, Structural)]
pub enum Truth {
    True,
    False,
    Unknown,
}

pub open spec fn from_bool(b: bool) -> Truth {
    if b {
        Truth::True
    } else {
        Truth::False
    }
}

pub open spec fn truth_not(a: Truth) -> Truth {
    match a {
        Truth::True => Truth::False,
        Truth::False => Truth::True,
        Truth::Unknown => Truth::Unknown,
    }
}

pub open spec fn truth_and(a: Truth, b: Truth) -> Truth {
    if a == Truth::False || b == Truth::False {
        Truth::False
    } else if a == Truth::Unknown || b == Truth::Unknown {
        Truth::Unknown
    } else {
        Truth::True
    }
}

pub open spec fn truth_or(a: Truth, b: Truth) -> Truth {
    if a == Truth::True || b == Truth::True {
        Truth::True
    } else if a == Truth::Unknown || b == Truth::Unknown {
        Truth::Unknown
    } else {
        Truth::False
    }
}

/// Comparison operators; `Has` is the `:` operator (substring).
#[derive(Clone, Copy, Debug, PartialEq, Eq, Structural)]
pub enum CmpOp {
    Eq,
    Ne,
    Lt,
    Le,
    Gt,
    Ge,
    Has,
}

/// A field reference of the filter language.
#[derive(Debug)]
pub enum FieldRef {
    LogName,
    ResourceType,
    ResourceLabel(String),
    Label(String),
    Severity,
    Timestamp,
    InsertId,
    Trace,
    SpanId,
    TextPayload,
    JsonPayload(String),
    /// A path the language does not know: it never resolves.
    Unknown,
}

/// A literal of the filter language, with its readings as a number, a
/// severity level, a boolean and an instant worked out once at compile time.
#[derive(Debug)]
pub struct Literal {
    pub text: Vec<char>,
    pub number: Option<i64>,
    pub level: Option<i64>,
    pub flag: Option<bool>,
    pub instant: Option<(i64, i32)>,
}

/// The level that a severity literal names (`ERROR`, or a number).
pub open spec fn severity_literal(t: Text) -> Option<int> {
    if t == "DEFAULT"@ {
        Some(0)
    } else if t == "DEBUG"@ {
        Some(100)
    } else if t == "INFO"@ {
        Some(200)
    } else if t == "NOTICE"@ {
        Some(300)
    } else if t == "WARNING"@ {
        Some(400)
    } else if t == "ERROR"@ {
        Some(500)
    } else if t == "CRITICAL"@ {
        Some(600)
    } else if t == "ALERT"@ {
        Some(700)
    } else if t == "EMERGENCY"@ {
        Some(800)
    } else {
        int_literal(t)
    }
}

pub open spec fn bool_literal(t: Text) -> Option<bool> {
    if t == "true"@ {
        Some(true)
    } else if t == "false"@ {
        Some(false)
    } else {
        None
    }
}

pub open spec fn opt_pair(o: Option<(i64, i32)>) -> Option<(int, int)> {
    match o {
        Some((s, n)) => Some((s as int, n as int)),
        None => None,
    }
}

pub open spec fn opt_int(o: Option<i64>) -> Option<int> {
    match o {
        Some(v) => Some(v as int),
        None => None,
    }
}

impl Literal {
    pub open spec fn wf(&self) -> bool {
        &&& opt_int(self.number) == int_literal(self.text@)
        &&& opt_int(self.level) == severity_literal(self.text@)
        &&& self.flag == bool_literal(self.text@)
        &&& opt_pair(self.instant) == instant_value(self.text@)
    }

    /// Builds a literal from its characters.
    pub fn from_chars(text: Vec<char>) -> (r: Literal)
        ensures
            r.wf(),
            r.text@ == text@,
    {
        let number = parse_int(&text);
        let level = severity_level(&text);
        let flag = if chars_eq_str(&text, "true") {
            Some(true)
        } else if chars_eq_str(&text, "false") {
            Some(false)
        } else {
            None
        };
        let instant = parse_instant(&text);
        Literal { text, number, level, flag, instant }
    }
}

/// Reads a severity literal (see `severity_literal`).
pub fn severity_level(t: &Vec<char>) -> (r: Option<i64>)
    ensures
        opt_int(r) == severity_literal(t@),
{
    if chars_eq_str(t, "DEFAULT") {
        Some(0)
    } else if chars_eq_str(t, "DEBUG") {
        Some(100)
    } else if chars_eq_str(t, "INFO") {
        Some(200)
    } else if chars_eq_str(t, "NOTICE") {
        Some(300)
    } else if chars_eq_str(t, "WARNING") {
        Some(400)
    } else if chars_eq_str(t, "ERROR") {
        Some(500)
    } else if chars_eq_str(t, "CRITICAL") {
        Some(600)
    } else if chars_eq_str(t, "ALERT") {
        Some(700)
    } else if chars_eq_str(t, "EMERGENCY") {
        Some(800)
    } else {
        parse_int(t)
    }
}

/// A compiled filter expression. `All` is the empty filter.
#[derive(Debug)]
pub enum Expr {
    All,
    Compare { field: FieldRef, op: CmpOp, value: Literal },
    /// `sample(field, fraction)`, with the fraction in parts per million.
    Sample { ppm: u32 },
    Not(Box<Expr>),
    And(Box<Expr>, Box<Expr>),
    Or(Box<Expr>, Box<Expr>),
}

pub open spec fn expr_wf(x: Expr) -> bool
    decreases x,
{
    match x {
        Expr::All => true,
        Expr::Compare { value, .. } => value.wf(),
        Expr::Sample { ppm } => ppm <= 1_000_000,
        Expr::Not(a) => expr_wf(*a),
        Expr::And(a, b) => expr_wf(*a) && expr_wf(*b),
        Expr::Or(a, b) => expr_wf(*a) && expr_wf(*b),
    }
}

/// What a field reference resolves to on an entry.
pub enum Value {
    Absent,
    Str(Text),
    Int(int),
    Level(int),
    Time(Timestamp),
    Flag(bool),
}

pub open spec fn text_or_absent(o: Option<Text>) -> Value {
    match o {
        Some(t) => Value::Str(t),
        None => Value::Absent,
    }
}

pub open spec fn scalar_value(o: Option<ScalarModel>) -> Value {
    match o {
        Some(ScalarModel::Str(s)) => Value::Str(s),
        Some(ScalarModel::Int(n)) => Value::Int(n),
        Some(ScalarModel::Bool(b)) => Value::Flag(b),
        _ => Value::Absent,
    }
}

pub open spec fn resolve(f: FieldRef, e: EntryModel) -> Value {
    match f {
        FieldRef::LogName => Value::Str(e.log_name),
        FieldRef::ResourceType => match e.resource {
            Some(r) => Value::Str(r.resource_type),
            None => Value::Absent,
        },
        FieldRef::ResourceLabel(k) => match e.resource {
            Some(r) => text_or_absent(label_lookup(r.labels, k@)),
            None => Value::Absent,
        },
        FieldRef::Label(k) => text_or_absent(label_lookup(e.labels, k@)),
        FieldRef::Severity => Value::Level(e.severity.rank()),
        FieldRef::Timestamp => match e.timestamp {
            Some(t) => Value::Time(t),
            None => Value::Absent,
        },
        FieldRef::InsertId => Value::Str(e.insert_id),
        FieldRef::Trace => Value::Str(e.trace),
        FieldRef::SpanId => Value::Str(e.span_id),
        FieldRef::TextPayload => match e.payload {
            Some(PayloadModel::Text(s)) => Value::Str(s),
            _ => Value::Absent,
        },
        FieldRef::JsonPayload(p) => match e.payload {
            Some(PayloadModel::Json(fs)) => scalar_value(field_lookup(fs, p@)),
            _ => Value::Absent,
        },
        FieldRef::Unknown => Value::Absent,
    }
}

pub open spec fn text_holds(s: Text, op: CmpOp, l: Text) -> bool {
    match op {
        CmpOp::Eq => s == l,
        CmpOp::Ne => s != l,
        CmpOp::Lt => text_lt(s, l),
        CmpOp::Le => text_lt(s, l) || s == l,
        CmpOp::Gt => text_lt(l, s),
        CmpOp::Ge => text_lt(l, s) || s == l,
        CmpOp::Has => contains_text(s, l),
    }
}

pub open spec fn num_holds(n: int, op: CmpOp, m: int) -> bool {
    match op {
        CmpOp::Eq => n == m,
        CmpOp::Has => n == m,
        CmpOp::Ne => n != m,
        CmpOp::Lt => n < m,
        CmpOp::Le => n <= m,
        CmpOp::Gt => n > m,
        CmpOp::Ge => n >= m,
    }
}

/// A timestamp compared with an instant of `m` seconds and `n` nanoseconds
/// since the epoch, written as a whole number of seconds or as an RFC 3339
/// instant.
pub open spec fn time_holds(t: Timestamp, op: CmpOp, m: int, n: int) -> bool {
    let lt = t.seconds < m || (t.seconds == m && t.nanos < n);
    let eq = t.seconds == m && t.nanos == n;
    match op {
        CmpOp::Eq => eq,
        CmpOp::Has => eq,
        CmpOp::Ne => !eq,
        CmpOp::Lt => lt,
        CmpOp::Le => lt || eq,
        CmpOp::Gt => !lt && !eq,
        CmpOp::Ge => !lt,
    }
}

pub open spec fn compare_value(v: Value, op: CmpOp, lit: Literal) -> Truth {
    match v {
        Value::Absent => Truth::Unknown,
        Value::Str(s) => from_bool(text_holds(s, op, lit.text@)),
        Value::Int(n) => match lit.number {
            Some(m) => from_bool(num_holds(n, op, m as int)),
            None => Truth::Unknown,
        },
        Value::Level(n) => match lit.level {
            Some(m) => from_bool(num_holds(n, op, m as int)),
            None => Truth::Unknown,
        },
        Value::Time(t) => match lit.number {
            Some(m) => from_bool(time_holds(t, op, m as int, 0)),
            None => match lit.instant {
                Some((m, n)) => from_bool(time_holds(t, op, m as int, n as int)),
                None => Truth::Unknown,
            },
        },
        Value::Flag(b) => match lit.flag {
            Some(c) => match op {
                CmpOp::Eq => from_bool(b == c),
                CmpOp::Has => from_bool(b == c),
                CmpOp::Ne => from_bool(b != c),
                _ => Truth::Unknown,
            },
            None => Truth::Unknown,
        },
    }
}

/// Modulus of the sampling hash (the largest prime below 2^32).
pub const HASH_MOD: u64 = 4294967291;

/// Polynomial hash of a text, modulo `HASH_MOD`.
pub open spec fn text_hash(s: Text) -> int
    decreases s.len(),
{
    if s.len() == 0 {
        7
    } else {
        (text_hash(s.drop_last()) * 31 + (s.last() as u32) as int) % (HASH_MOD as int)
    }
}

pub open spec fn ts_or_epoch(ts: Option<Timestamp>) -> Timestamp {
    match ts {
        Some(t) => t,
        None => Timestamp { seconds: 0, nanos: 0 },
    }
}

/// The sampling bucket of an entry, in `0 .. 1_000_000`: a hash of its
/// insert id and timestamp alone.
pub open spec fn sample_bucket(id: Text, ts: Option<Timestamp>) -> int {
    let t = ts_or_epoch(ts);
    let h2 = (text_hash(id) * 31 + (t.seconds as u64) as int % (HASH_MOD as int)) % (
    HASH_MOD as int);
    let h3 = (h2 * 31 + (t.nanos as u32) as int) % (HASH_MOD as int);
    ((h3 * 2654435761) % 4294967296) / 4295
}

/// Whether `sample(..)` with a fraction of `ppm` parts per million selects
/// the entry.
pub open spec fn sampled(id: Text, ts: Option<Timestamp>, ppm: int) -> bool {
    sample_bucket(id, ts) < ppm
}

pub open spec fn eval(x: Expr, e: EntryModel) -> Truth
    decreases x,
{
    match x {
        Expr::All => Truth::True,
        Expr::Compare { field, op, value } => compare_value(resolve(field, e), op, value),
        Expr::Sample { ppm } => from_bool(sampled(e.insert_id, e.timestamp, ppm as int)),
        Expr::Not(a) => truth_not(eval(*a, e)),
        Expr::And(a, b) => truth_and(eval(*a, e), eval(*b, e)),
        Expr::Or(a, b) => truth_or(eval(*a, e), eval(*b, e)),
    }
}

/// Whether a filter selects an entry: only a definite `True` does.
pub open spec fn selects(x: Expr, e: EntryModel) -> bool {
    eval(x, e) == Truth::True
}

/// Computes `text_hash`.
pub fn hash_text(s: &Vec<char>) -> (r: u64)
    ensures
        r as int == text_hash(s@),
        r < HASH_MOD,
{
    let mut h: u64 = 7;
    let mut i: usize = 0;
    while i < s.len()
        invariant
            i <= s@.len(),
            h as int == text_hash(s@.subrange(0, i as int)),
            h < HASH_MOD,
        decreases s@.len() - i,
    {
        let c = s[i] as u32 as u64;
        assert(s@.subrange(0, i as int + 1).drop_last() =~= s@.subrange(0, i as int));
        assert(c <= 0xffff_ffff);
        h = (h * 31 + c) % HASH_MOD;
        i = i + 1;
    }
    assert(s@.subrange(0, i as int) =~= s@);
    h
}

/// Computes `sample_bucket`.
pub fn bucket_of(id: &Vec<char>, ts: Option<Timestamp>) -> (r: u64)
    ensures
        r as int == sample_bucket(id@, ts),
        r < 1_000_000,
{
    let t = match ts {
        Some(t) => t,
        None => Timestamp { seconds: 0, nanos: 0 },
    };
    let h1 = hash_text(id);
    let h2 = (h1 * 31 + (t.seconds as u64) % HASH_MOD) % HASH_MOD;
    let h3 = (h2 * 31 + (t.nanos as u32 as u64)) % HASH_MOD;
    assert(h3 * 2654435761 < 0x1_0000_0000_0000_0000) by (nonlinear_arith)
        requires
            h3 < 4294967291,
    ;
    let m = (h3 * 2654435761) % 4294967296;
    let b = m / 4295;
    assert(b < 1_000_000) by (nonlinear_arith)
        requires
            m < 4294967296,
            b == m / 4295,
    ;
    b
}

/// The executable counterpart of `resolve`, borrowing strings from the entry.
pub enum Found<'a> {
    Absent,
    Str(&'a String),
    Int(i64),
    Level(i64),
    Time(Timestamp),
    Flag(bool),
}

pub open spec fn found_value(f: Found) -> Value {
    match f {
        Found::Absent => Value::Absent,
        Found::Str(s) => Value::Str(s@),
        Found::Int(n) => Value::Int(n as int),
        Found::Level(n) => Value::Level(n as int),
        Found::Time(t) => Value::Time(t),
        Found::Flag(b) => Value::Flag(b),
    }
}

pub fn resolve_field<'a>(f: &FieldRef, e: &'a LogEntry) -> (r: Found<'a>)
    ensures
        found_value(r) == resolve(*f, e@),
{
    match f {
        FieldRef::LogName => Found::Str(&e.log_name),
        FieldRef::ResourceType => match &e.resource {
            Some(r) => Found::Str(&r.resource_type),
            None => Found::Absent,
        },
        FieldRef::ResourceLabel(k) => match &e.resource {
            Some(r) => match find_label(&r.labels, k) {
                Some(v) => Found::Str(v),
                None => Found::Absent,
            },
            None => Found::Absent,
        },
        FieldRef::Label(k) => match find_label(&e.labels, k) {
            Some(v) => Found::Str(v),
            None => Found::Absent,
        },
        FieldRef::Severity => Found::Level(e.severity.code()),
        FieldRef::Timestamp => match e.timestamp {
            Some(t) => Found::Time(t),
            None => Found::Absent,
        },
        FieldRef::InsertId => Found::Str(&e.insert_id),
        FieldRef::Trace => Found::Str(&e.trace),
        FieldRef::SpanId => Found::Str(&e.span_id),
        FieldRef::TextPayload => match &e.payload {
            Some(Payload::Text(s)) => Found::Str(s),
            _ => Found::Absent,
        },
        FieldRef::JsonPayload(p) => match &e.payload {
            Some(Payload::Json(fs)) => match find_field(fs, p) {
                Some(JsonScalar::Str(s)) => Found::Str(s),
                Some(JsonScalar::Int(n)) => Found::Int(*n),
                Some(JsonScalar::Bool(b)) => Found::Flag(*b),
                _ => Found::Absent,
            },
            _ => Found::Absent,
        },
        FieldRef::Unknown => Found::Absent,
    }
}

fn truth_of(b: bool) -> (r: Truth)
    ensures
        r == from_bool(b),
{
    if b {
        Truth::True
    } else {
        Truth::False
    }
}

fn num_compare(n: i64, op: CmpOp, m: i64) -> (r: bool)
    ensures
        r == num_holds(n as int, op, m as int),
{
    match op {
        CmpOp::Eq => n == m,
        CmpOp::Has => n == m,
        CmpOp::Ne => n != m,
        CmpOp::Lt => n < m,
        CmpOp::Le => n <= m,
        CmpOp::Gt => n > m,
        CmpOp::Ge => n >= m,
    }
}

fn text_compare(s: &String, op: CmpOp, lit: &Literal) -> (r: bool)
    requires
        lit.wf(),
    ensures
        r == text_holds(s@, op, lit.text@),
{
    match op {
        CmpOp::Eq => {
            let cs = to_chars(s.as_str());
            compare_text(&cs, &lit.text) == 0
        },
        CmpOp::Ne => {
            let cs = to_chars(s.as_str());
            compare_text(&cs, &lit.text) != 0
        },
        CmpOp::Has => {
            let cs = to_chars(s.as_str());
            contains(&cs, &lit.text)
        },
        _ => {
            let cs = to_chars(s.as_str());
            let c = compare_text(&cs, &lit.text);
            match op {
                CmpOp::Lt => c == -1,
                CmpOp::Le => c == -1 || c == 0,
                CmpOp::Gt => c == 1,
                _ => c == 1 || c == 0,
            }
        },
    }
}

/// Evaluates one comparison (see `compare_value`).
pub fn compare_found(v: &Found, op: CmpOp, lit: &Literal) -> (r: Truth)
    requires
        lit.wf(),
    ensures
        r == compare_value(found_value(*v), op, *lit),
{
    match v {
        Found::Absent => Truth::Unknown,
        Found::Str(s) => truth_of(text_compare(s, op, lit)),
        Found::Int(n) => match lit.number {
            Some(m) => truth_of(num_compare(*n, op, m)),
            None => Truth::Unknown,
        },
        Found::Level(n) => match lit.level {
            Some(m) => truth_of(num_compare(*n, op, m)),
            None => Truth::Unknown,
        },
        Found::Time(t) => {
            let at = match lit.number {
                Some(m) => Some((m, 0i32)),
                None => lit.instant,
            };
            match at {
                Some((m, n)) => {
                    let lt = t.seconds < m || (t.seconds == m && t.nanos < n);
                    let eq = t.seconds == m && t.nanos == n;
                    let b = match op {
                        CmpOp::Eq => eq,
                        CmpOp::Has => eq,
                        CmpOp::Ne => !eq,
                        CmpOp::Lt => lt,
                        CmpOp::Le => lt || eq,
                        CmpOp::Gt => !lt && !eq,
                        CmpOp::Ge => !lt,
                    };
                    truth_of(b)
                },
                None => Truth::Unknown,
            }
        },
        Found::Flag(b) => match lit.flag {
            Some(c) => match op {
                CmpOp::Eq => truth_of(*b == c),
                CmpOp::Has => truth_of(*b == c),
                CmpOp::Ne => truth_of(*b != c),
                _ => Truth::Unknown,
            },
            None => Truth::Unknown,
        },
    }
}

/// Evaluates an expression against an entry, short-circuiting `AND` and `OR`.
pub fn eval_expr(x: &Expr, e: &LogEntry) -> (r: Truth)
    requires
        expr_wf(*x),
    ensures
        r == eval(*x, e@),
    decreases x,
{
    match x {
        Expr::All => Truth::True,
        Expr::Compare { field, op, value } => {
            let v = resolve_field(field, e);
            compare_found(&v, *op, value)
        },
        Expr::Sample { ppm } => {
            let id = to_chars(e.insert_id.as_str());
            let b = bucket_of(&id, e.timestamp);
            truth_of(b < *ppm as u64)
        },
        Expr::Not(a) => match eval_expr(a, e) {
            Truth::True => Truth::False,
            Truth::False => Truth::True,
            Truth::Unknown => Truth::Unknown,
        },
        Expr::And(a, b) => {
            let l = eval_expr(a, e);
            if l == Truth::False {
                Truth::False
            } else {
                let r = eval_expr(b, e);
                if r == Truth::False {
                    Truth::False
                } else if l == Truth::Unknown || r == Truth::Unknown {
                    Truth::Unknown
                } else {
                    Truth::True
                }
            }
        },
        Expr::Or(a, b) => {
            let l = eval_expr(a, e);
            if l == Truth::True {
                Truth::True
            } else {
                let r = eval_expr(b, e);
                if r == Truth::True {
                    Truth::True
                } else if l == Truth::Unknown || r == Truth::Unknown {
                    Truth::Unknown
                } else {
                    Truth::False
                }
            }
        },
    }
}

/// A filter compiled once and evaluated against any number of entries.
#[derive(Debug)]
pub struct Filter {
    pub expr: Expr,
}

impl Filter {
    pub open spec fn wf(&self) -> bool {
        expr_wf(self.expr)
    }

    /// The empty filter, which selects every entry.
    pub fn match_all() -> (r: Filter)
        ensures
            r.wf(),
            r.expr == Expr::All,
    {
        Filter { expr: Expr::All }
    }

    /// Whether the filter selects the entry.
    pub fn matches(&self, e: &LogEntry) -> (r: bool)
        requires
            self.wf(),
        ensures
            r == selects(self.expr, e@),
    {
        eval_expr(&self.expr, e) == Truth::True
    }
}

/// Evaluation is a function of the expression and the entry alone: two
/// entries with the same insert id and timestamp get the same `sample(..)`
/// decision for a given fraction, and an expression evaluates equally on
/// equal entries, however often it runs.
pub proof fn lemma_evaluation_deterministic(x: Expr, ppm: u32, e1: EntryModel, e2: EntryModel)
    requires
        e1.insert_id == e2.insert_id,
        e1.timestamp == e2.timestamp,
    ensures
        eval(Expr::Sample { ppm }, e1) == eval(Expr::Sample { ppm }, e2),
        e1 == e2 ==> eval(x, e1) == eval(x, e2),
{
}

/// The extremes of sampling: a fraction of 0 selects no entry and a
/// fraction of 1 selects every entry.
pub proof fn lemma_sample_extremes(id: Text, ts: Option<Timestamp>)
    ensures
        !sampled(id, ts, 0),
        sampled(id, ts, 1_000_000),
{
    let t = ts_or_epoch(ts);
    let h2 = (text_hash(id) * 31 + (t.seconds as u64) as int % (HASH_MOD as int)) % (
    HASH_MOD as int);
    let h3 = (h2 * 31 + (t.nanos as u32) as int) % (HASH_MOD as int);
    let m = (h3 * 2654435761) % 4294967296;
    assert(0 <= m < 4294967296);
    assert(0 <= m / 4295 < 1_000_000) by (nonlinear_arith)
        requires
            0 <= m < 4294967296,
    ;
}

} // verus!
