//! Value and label extractors of logs-based metrics: `EXTRACT(field)` and
//! `REGEXP_EXTRACT(field, "pattern")`.
use vstd::prelude::*;
use crate::entry::{EntryModel, LogEntry, Text};
use crate::filter::{FieldRef, Found, Value, found_value, resolve, resolve_field};
use crate::grammar::{field_model, field_of};
use crate::metrics::{extract_value, sample_value};
use crate::parse::{parse_field, slice_chars, starts_with_str};
use crate::sequencer::{int_text, int_to_string};
use crate::text::{int_literal, parse_int, to_chars};

verus! {

/// What compiling `pattern` as a regular expression gives: its number of
/// capture groups, the whole match included, or `None` when it does not
/// compile.
pub uninterp spec fn regex_group_count(pattern: Seq<char>) -> Option<nat>;

/// The text of the first capture group of the leftmost match of `pattern`
/// in `text`; `None` when the pattern does not compile, does not match, or
/// the group took no part in the match.
pub uninterp spec fn regex_first_group(pattern: Seq<char>, text: Seq<char>) -> Option<Seq<char>>;

/// Relies on `regex::Regex::new` (an error for a pattern that does not
/// compile) and `Regex::captures_len` (the number of groups, the implicit
/// whole-match group included).
#[verifier::external_body]
fn pattern_groups(pattern: &str) -> (r: Option<usize>)
    ensures
        match r {
            Some(n) => regex_group_count(pattern@) == Some(n as nat),
            None => regex_group_count(pattern@) is None,
        },
{
    match regex::Regex::new(pattern) {
        Ok(re) => Some(re.captures_len()),
        Err(_) => None,
    }
}

/// Relies on `regex::Regex::new`, `Regex::captures` (the leftmost match)
/// and `Captures::get(1)` (the first group, if it took part).
#[verifier::external_body]
fn first_group(pattern: &str, text: &str) -> (r: Option<String>)
    ensures
        match r {
            Some(s) => regex_first_group(pattern@, text@) == Some(s@),
            None => regex_first_group(pattern@, text@) is None,
        },
{
    let re = match regex::Regex::new(pattern) {
        Ok(re) => re,
        Err(_) => return None,
    };
    match re.captures(text) {
        Some(c) => match c.get(1) {
            Some(m) => Some(m.as_str().to_string()),
            None => None,
        },
        None => None,
    }
}

/// An extractor: a field, and for `REGEXP_EXTRACT` the pattern whose one
/// capture group is taken from the field's text.
#[derive(Debug)]
pub struct Extractor {
    pub field: FieldRef,
    pub pattern: Option<String>,
}

/// Whether `t` has the form `EXTRACT(<field>)`.
pub open spec fn extract_shaped(t: Text) -> bool {
    t.len() > 9 && t.subrange(0, 8) == "EXTRACT("@ && t.last() == ')'
}

/// The first comma at or after `k`, or the length.
pub open spec fn comma_index(t: Text, k: int) -> int
    decreases t.len() - k,
{
    if k < 0 || k >= t.len() {
        t.len() as int
    } else if t[k] == ',' {
        k
    } else {
        comma_index(t, k + 1)
    }
}

/// Whether `t` has the form `REGEXP_EXTRACT(<field>, "<pattern>")`, the
/// field up to the first comma and the pattern up to the closing `")`.
pub open spec fn regexp_shaped(t: Text) -> bool {
    let c = comma_index(t, 15);
    &&& t.len() > 15
    &&& t.subrange(0, 15) == "REGEXP_EXTRACT("@
    &&& c + 3 <= t.len() - 2
    &&& t[c + 1] == ' '
    &&& t[c + 2] == '"'
    &&& t[t.len() - 2] == '"'
    &&& t[t.len() - 1] == ')'
}

pub open spec fn regexp_field(t: Text) -> Text {
    t.subrange(15, comma_index(t, 15))
}

pub open spec fn regexp_pattern(t: Text) -> Text {
    t.subrange(comma_index(t, 15) + 3, t.len() - 2)
}

/// `x` is what the extractor text `t` compiles to. A pattern must have
/// exactly one capture group.
pub open spec fn extractor_for(t: Text, x: Extractor) -> bool {
    if extract_shaped(t) {
        x.pattern is None && field_model(x.field) == field_of(t.subrange(8, t.len() - 1))
    } else {
        &&& regexp_shaped(t)
        &&& field_model(x.field) == field_of(regexp_field(t))
        &&& x.pattern matches Some(p) && p@ == regexp_pattern(t)
        &&& regex_group_count(regexp_pattern(t)) == Some(2nat)
    }
}

/// `t` is no extractor.
pub open spec fn extractor_refused(t: Text) -> bool {
    !extract_shaped(t) && !(regexp_shaped(t) && regex_group_count(regexp_pattern(t)) == Some(
        2nat,
    ))
}

/// Reads an extractor (see `extractor_for`).
pub fn parse_extractor(src: &str) -> (r: Option<Extractor>)
    ensures
        match r {
            Some(x) => extractor_for(src@, x),
            None => extractor_refused(src@),
        },
{
    proof {
        reveal_strlit("EXTRACT(");
        reveal_strlit("REGEXP_EXTRACT(");
    }
    let t = to_chars(src);
    let n = t.len();
    if n > 9 && starts_with_str(&t, "EXTRACT(") && t[n - 1] == ')' {
        let inner = slice_chars(&t, 8, n - 1);
        let word = src.substring_char(8, n - 1);
        return Some(Extractor { field: parse_field(&inner, word), pattern: None });
    }
    if n <= 15 || !starts_with_str(&t, "REGEXP_EXTRACT(") {
        return None;
    }
    let mut c: usize = 15;
    while c < n && t[c] != ','
        invariant
            15 <= c <= n,
            n == t@.len(),
            comma_index(t@, 15) == comma_index(t@, c as int),
        decreases n - c,
    {
        c = c + 1;
    }
    if c >= n || n - c < 5 || t[c + 1] != ' ' || t[c + 2] != '"' || t[n - 2] != '"' || t[n - 1]
        != ')' {
        return None;
    }
    let pattern = src.substring_char(c + 3, n - 2).to_string();
    match pattern_groups(pattern.as_str()) {
        Some(g) => {
            if g != 2 {
                return None;
            }
        },
        None => return None,
    }
    let inner = slice_chars(&t, 15, c);
    let word = src.substring_char(15, c);
    Some(Extractor { field: parse_field(&inner, word), pattern: Some(pattern) })
}

/// The name of a severity level, or its number when it names none.
pub open spec fn level_name(n: int) -> Text {
    if n == 0 {
        "DEFAULT"@
    } else if n == 100 {
        "DEBUG"@
    } else if n == 200 {
        "INFO"@
    } else if n == 300 {
        "NOTICE"@
    } else if n == 400 {
        "WARNING"@
    } else if n == 500 {
        "ERROR"@
    } else if n == 600 {
        "CRITICAL"@
    } else if n == 700 {
        "ALERT"@
    } else if n == 800 {
        "EMERGENCY"@
    } else {
        int_text(n)
    }
}

/// The text form of a field's value: strings as they are, numbers in
/// decimal, severities by name, booleans as `true` or `false`; an absent
/// field or a timestamp gives the empty text.
pub open spec fn field_text(v: Value) -> Text {
    match v {
        Value::Str(s) => s,
        Value::Int(n) => int_text(n),
        Value::Level(n) => level_name(n),
        Value::Flag(b) => if b {
            "true"@
        } else {
            "false"@
        },
        _ => Seq::empty(),
    }
}

/// The text an extractor takes from an entry; a pattern that does not
/// match gives the empty text.
pub open spec fn extracted(x: Extractor, e: EntryModel) -> Text {
    let t = field_text(resolve(x.field, e));
    match x.pattern {
        None => t,
        Some(p) => match regex_first_group(p@, t) {
            Some(c) => c,
            None => Seq::empty(),
        },
    }
}

/// The number a captured text gives; what does not convert gives 0.
pub open spec fn capture_sample(c: Option<Text>) -> int {
    match c {
        Some(t) => match int_literal(t) {
            Some(n) => n,
            None => 0,
        },
        None => 0,
    }
}

/// The sample a value extractor takes from an entry.
pub open spec fn extracted_sample(x: Extractor, e: EntryModel) -> int {
    match x.pattern {
        None => sample_value(resolve(x.field, e)),
        Some(p) => capture_sample(regex_first_group(p@, field_text(resolve(x.field, e)))),
    }
}

fn level_text(n: i64) -> (r: String)
    ensures
        r@ == level_name(n as int),
{
    if n == 0 {
        "DEFAULT".to_string()
    } else if n == 100 {
        "DEBUG".to_string()
    } else if n == 200 {
        "INFO".to_string()
    } else if n == 300 {
        "NOTICE".to_string()
    } else if n == 400 {
        "WARNING".to_string()
    } else if n == 500 {
        "ERROR".to_string()
    } else if n == 600 {
        "CRITICAL".to_string()
    } else if n == 700 {
        "ALERT".to_string()
    } else if n == 800 {
        "EMERGENCY".to_string()
    } else {
        int_to_string(n)
    }
}

/// Computes `field_text`.
pub fn text_of(v: &Found) -> (r: String)
    ensures
        r@ == field_text(found_value(*v)),
{
    match v {
        Found::Str(s) => (*s).clone(),
        Found::Int(n) => int_to_string(*n),
        Found::Level(n) => level_text(*n),
        Found::Flag(b) => if *b {
            "true".to_string()
        } else {
            "false".to_string()
        },
        _ => String::new(),
    }
}

/// The number a captured text gives (see `capture_sample`).
pub fn sample_of_capture(c: &Option<String>) -> (r: i64)
    ensures
        r as int == capture_sample(
            match c {
                Some(s) => Some(s@),
                None => None,
            },
        ),
{
    match c {
        Some(s) => {
            let cs = to_chars(s.as_str());
            match parse_int(&cs) {
                Some(n) => n,
                None => 0,
            }
        },
        None => 0,
    }
}

/// Computes `extracted`.
pub fn extract_text(x: &Extractor, e: &LogEntry) -> (r: String)
    ensures
        r@ == extracted(*x, e@),
{
    let t = text_of(&resolve_field(&x.field, e));
    match &x.pattern {
        None => t,
        Some(p) => match first_group(p.as_str(), t.as_str()) {
            Some(c) => c,
            None => String::new(),
        },
    }
}

/// Computes `extracted_sample`.
pub fn extract_sample(x: &Extractor, e: &LogEntry) -> (r: i64)
    ensures
        r as int == extracted_sample(*x, e@),
{
    match &x.pattern {
        None => extract_value(&x.field, e),
        Some(p) => {
            let t = text_of(&resolve_field(&x.field, e));
            let c = first_group(p.as_str(), t.as_str());
            sample_of_capture(&c)
        },
    }
}

} // verus!
