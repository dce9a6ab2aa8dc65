//! Paged queries over stored entries, and deletion of a log.
use vstd::prelude::*;
use crate::entry::{EntryModel, LogEntry, Text, Timestamp, entries_view};
use crate::filter::{Expr, Filter, expr_wf, selects, ts_or_epoch};
use crate::grammar::{ExprModel, expr_model, filter_syntax, lemma_eval_by_model};
use crate::parse::{FilterError, compile};
use crate::entry::label_lookup;
use crate::pipeline::{LogPipeline, PipelineModel, Tombstone, keeps, lemma_written_entry_stored_unchanged};
use crate::sequencer::{DefaultsModel, lists, normalized_batch};
use crate::pipeline::stored_in_key_order;
use crate::scope::{find_logs, log_name_valid, owner_of, valid_log_name};
use crate::sequencer::{
    key_less,
    Key, KeyModel, arranged, is_permutation, key_lt, key_view, keys_view, lemma_stable_order_unique,
    sort_keys, stably_sorted,
};
use crate::text::{compare_text, lemma_text_lt_irreflexive, lemma_text_lt_total};
use crate::parse::slice_chars;
use crate::text::{chars_eq_str, to_chars};

verus! {

/// Page size used when a request asks for 0.
pub const DEFAULT_PAGE_SIZE: usize = 50;

/// A query: the scopes to read (such as `projects/p`), a filter, the
/// direction (`""`, `"timestamp asc"` or `"timestamp desc"`), a page size,
/// and the token of the page to resume from.
#[derive(Debug)]
pub struct ListLogEntriesRequest {
    pub resource_names: Vec<String>,
    pub filter: String,
    pub order_by: String,
    pub page_size: usize,
    pub page_token: Option<PageToken>,
}

/// Where a scan resumes: the timestamp, insert id and log name of the first
/// entry it has not yet looked at, and how many entries with exactly that
/// timestamp, insert id and log name it had passed. Entries written between
/// two pages do not move the place it names.
#[derive(Debug)]
pub struct PageToken {
    pub seconds: i64,
    pub nanos: i32,
    pub insert_id: String,
    pub log_name: String,
    pub passed: usize,
}

pub struct TokenModel {
    pub seconds: int,
    pub nanos: int,
    pub insert_id: Text,
    pub log_name: Text,
    pub passed: int,
}

impl View for PageToken {
    type V = TokenModel;

    open spec fn view(&self) -> TokenModel {
        TokenModel {
            seconds: self.seconds as int,
            nanos: self.nanos as int,
            insert_id: self.insert_id@,
            log_name: self.log_name@,
            passed: self.passed as int,
        }
    }
}

pub open spec fn opt_token(t: Option<PageToken>) -> Option<TokenModel> {
    match t {
        Some(t) => Some(t@),
        None => None,
    }
}

/// One page; a token is present when the scan is not complete.
#[derive(Debug)]
pub struct ListLogEntriesResponse {
    pub entries: Vec<LogEntry>,
    pub next_page_token: Option<PageToken>,
}

/// Which log to delete, such as `projects/p/logs/syslog`.
#[derive(Debug)]
pub struct DeleteLogRequest {
    pub log_name: String,
}

/// A deletion was refused: the log name is malformed (see
/// `log_name_valid`).
#[derive(Clone, Copy, Debug, PartialEq, Eq, Structural)]
pub enum DeleteError {
    InvalidArgument,
}

#[derive(Clone, Copy, Debug, PartialEq, Eq, Structural)]
pub enum ListError {
    MissingResourceNames,
    InvalidFilter(FilterError),
    InvalidOrderBy,
}

/// Whether the log `ln` belongs to scope `n`: it starts with `n/`.
pub open spec fn under(ln: Text, n: Text) -> bool {
    n.len() < ln.len() && ln.subrange(0, n.len() as int) == n && ln[n.len() as int] == '/'
}

pub open spec fn in_scopes(names: Seq<Text>, ln: Text) -> bool {
    exists|i: int| 0 <= i < names.len() && under(ln, #[trigger] names[i])
}

/// Longest time ahead of now that a listed entry may be stamped.
pub const FUTURE_SLACK_SECONDS: i64 = 86400;

/// The times a query can see: from `retention` seconds before `now` to a
/// day after it.
pub struct Window {
    pub now: Timestamp,
    pub retention: int,
}

pub open spec fn in_window(ts: Option<Timestamp>, w: Window) -> bool {
    let t = ts_or_epoch(ts);
    let lo = w.now.seconds - w.retention;
    let hi = w.now.seconds + FUTURE_SLACK_SECONDS;
    &&& (t.seconds > lo || (t.seconds == lo && t.nanos >= w.now.nanos))
    &&& (t.seconds < hi || (t.seconds == hi && t.nanos <= w.now.nanos))
}

fn within_window(ts: Option<Timestamp>, now: Timestamp, retention: i64) -> (r: bool)
    ensures
        r == in_window(ts, Window { now, retention: retention as int }),
{
    let t = match ts {
        Some(t) => t,
        None => Timestamp { seconds: 0, nanos: 0 },
    };
    let s = t.seconds as i128;
    let lo = now.seconds as i128 - retention as i128;
    let hi = now.seconds as i128 + FUTURE_SLACK_SECONDS as i128;
    (s > lo || (s == lo && t.nanos >= now.nanos)) && (s < hi || (s == hi && t.nanos <= now.nanos))
}

/// Whether a query lists an entry: it lies in the window and in one of the
/// scopes, and the filter selects it.
pub open spec fn listed(names: Seq<Text>, w: Window, x: Expr, e: EntryModel) -> bool {
    in_window(e.timestamp, w) && in_scopes(names, e.log_name) && selects(x, e)
}

/// The key a query scans by: the timestamp (negated for a descending
/// scan), then the insert id, then the log name.
pub open spec fn query_key(e: EntryModel, desc: bool) -> KeyModel {
    let t = ts_or_epoch(e.timestamp);
    KeyModel {
        head: Seq::empty(),
        seconds: if desc {
            -(t.seconds as int)
        } else {
            t.seconds as int
        },
        nanos: if desc {
            -(t.nanos as int)
        } else {
            t.nanos as int
        },
        id: e.insert_id,
        tail: e.log_name,
    }
}

pub open spec fn query_keys(store: Seq<EntryModel>, desc: bool) -> Seq<KeyModel> {
    Seq::new(store.len(), |i: int| query_key(store[i], desc))
}

/// Whether two entries have the same timestamp and insert id.
pub open spec fn same_slot(a: EntryModel, b: EntryModel) -> bool {
    ts_or_epoch(a.timestamp) == ts_or_epoch(b.timestamp) && a.insert_id == b.insert_id
}

/// Whether, walking back from `q` over the entries of the scan that share
/// the slot of entry `i`, a listed entry of the same owner comes first.
/// The scan keeps such entries next to each other.
pub open spec fn dup_before(es: Seq<EntryModel>, names: Seq<Text>, w: Window, x: Expr, i: int, q: int) -> bool
    decreases q,
{
    if q <= 0 || q > i || i >= es.len() {
        false
    } else if !same_slot(es[q - 1], es[i]) {
        false
    } else {
        (listed(names, w, x, es[q - 1]) && owner_of(es[q - 1].log_name) == owner_of(es[i].log_name))
            || dup_before(es, names, w, x, i, q - 1)
    }
}

/// Whether a query returns the entry at position `i` of its scan: it is
/// listed, and no earlier listed entry of the same owner has its timestamp
/// and insert id.
pub open spec fn returned(es: Seq<EntryModel>, names: Seq<Text>, w: Window, x: Expr, i: int) -> bool {
    listed(names, w, x, es[i]) && !dup_before(es, names, w, x, i, i)
}

/// Where a scan from `from` stops: after `size` returned entries, or at the end.
pub open spec fn page_end(es: Seq<EntryModel>, names: Seq<Text>, w: Window, x: Expr, from: int, size: nat) -> int
    decreases es.len() - from,
{
    if from >= es.len() || from < 0 || size == 0 {
        from
    } else if returned(es, names, w, x, from) {
        page_end(es, names, w, x, from + 1, (size - 1) as nat)
    } else {
        page_end(es, names, w, x, from + 1, size)
    }
}

/// The returned entries of `es` from `from` to `end`.
pub open spec fn picked(es: Seq<EntryModel>, names: Seq<Text>, w: Window, x: Expr, from: int, end: int) -> Seq<
    EntryModel,
>
    decreases end - from,
{
    if end <= from {
        Seq::empty()
    } else {
        let p = picked(es, names, w, x, from, end - 1);
        if returned(es, names, w, x, end - 1) {
            p.push(es[end - 1])
        } else {
            p
        }
    }
}

pub open spec fn texts_of(v: Seq<String>) -> Seq<Text> {
    v.map_values(|s: String| s@)
}

pub open spec fn effective_size(n: usize) -> nat {
    if n == 0 {
        DEFAULT_PAGE_SIZE as nat
    } else {
        n as nat
    }
}

/// The sort key a token names.
pub open spec fn token_key(t: TokenModel, desc: bool) -> KeyModel {
    KeyModel {
        head: Seq::empty(),
        seconds: if desc {
            -t.seconds
        } else {
            t.seconds
        },
        nanos: if desc {
            -t.nanos
        } else {
            t.nanos
        },
        id: t.insert_id,
        tail: t.log_name,
    }
}

/// How many of the first `n` entries of the scan sort below `k`.
pub open spec fn count_below(es: Seq<EntryModel>, desc: bool, k: KeyModel, n: int) -> int
    decreases n,
{
    if n <= 0 || n > es.len() {
        0
    } else {
        count_below(es, desc, k, n - 1) + if key_lt(query_key(es[n - 1], desc), k) {
            1int
        } else {
            0int
        }
    }
}

/// Where a scan resumes from a token: past the entries below its key and
/// the ones of its key it had passed, at most at the end.
pub open spec fn scan_from(es: Seq<EntryModel>, desc: bool, tok: Option<TokenModel>) -> int {
    match tok {
        None => 0,
        Some(t) => {
            let c = count_below(es, desc, token_key(t, desc), es.len() as int) + t.passed;
            if c < es.len() {
                c
            } else {
                es.len() as int
            }
        },
    }
}

/// The token for a scan stopped before position `end`, if any is left.
pub open spec fn next_token(es: Seq<EntryModel>, desc: bool, end: int) -> Option<TokenModel> {
    if 0 <= end < es.len() {
        let e = es[end];
        let t = ts_or_epoch(e.timestamp);
        let c = count_below(es, desc, query_key(e, desc), es.len() as int);
        Some(
            TokenModel {
                seconds: t.seconds as int,
                nanos: t.nanos as int,
                insert_id: e.insert_id,
                log_name: e.log_name,
                passed: if c <= end {
                    end - c
                } else {
                    0
                },
            },
        )
    } else {
        None
    }
}

/// `entries` and `next` are the page that a scan of `store` by timestamp
/// (ascending, or descending when `desc`), equal timestamps by insert id and
/// then log name, gives from where `tok` points (the stable order is unique,
/// see `lemma_stable_order_unique`).
pub open spec fn is_page(
    store: Seq<EntryModel>,
    names: Seq<Text>,
    w: Window,
    x: Expr,
    desc: bool,
    tok: Option<TokenModel>,
    size: nat,
    entries: Seq<EntryModel>,
    next: Option<TokenModel>,
) -> bool {
    exists|order: Seq<usize>|
        #![trigger arranged(order, store)]
        is_permutation(order, store.len()) && stably_sorted(order, query_keys(store, desc)) && ({
            let es = arranged(order, store);
            let from = scan_from(es, desc, tok);
            let end = page_end(es, names, w, x, from, size);
            &&& entries == picked(es, names, w, x, from, end)
            &&& next == next_token(es, desc, end)
        })
}

pub open spec fn order_desc(t: Text) -> Option<bool> {
    if t.len() == 0 || t == "timestamp asc"@ {
        Some(false)
    } else if t == "timestamp desc"@ {
        Some(true)
    } else {
        None
    }
}

fn in_scope(names: &Vec<Vec<char>>, ln: &Vec<char>) -> (r: bool)
    ensures
        r == exists|i: int| 0 <= i < names@.len() && under(ln@, #[trigger] names@[i]@),
{
    let mut i: usize = 0;
    while i < names.len()
        invariant
            i <= names@.len(),
            forall|j: int| 0 <= j < i ==> !under(ln@, #[trigger] names@[j]@),
        decreases names@.len() - i,
    {
        let n = &names[i];
        if n.len() < ln.len() && ln[n.len()] == '/' {
            let mut k: usize = 0;
            let mut same = true;
            while k < n.len()
                invariant
                    n@.len() < ln@.len(),
                    k <= n@.len(),
                    same ==> ln@.subrange(0, k as int) == n@.subrange(0, k as int),
                    !same ==> ln@.subrange(0, n@.len() as int) != n@,
                decreases n@.len() - k,
            {
                if same && ln[k] != n[k] {
                    same = false;
                    assert(ln@.subrange(0, n@.len() as int)[k as int] != n@[k as int]);
                }
                if same {
                    assert(ln@.subrange(0, k as int + 1) =~= ln@.subrange(0, k as int).push(ln@[k as int]));
                    assert(n@.subrange(0, k as int + 1) =~= n@.subrange(0, k as int).push(n@[k as int]));
                }
                k = k + 1;
            }
            if same {
                assert(n@.subrange(0, n@.len() as int) =~= n@);
                assert(under(ln@, names@[i as int]@));
                return true;
            }
        }
        i = i + 1;
    }
    false
}

fn query_key_of(e: &LogEntry, desc: bool) -> (r: Key)
    ensures
        key_view(r) == query_key(e@, desc),
{
    let t = match e.timestamp {
        Some(t) => t,
        None => Timestamp { seconds: 0, nanos: 0 },
    };
    let r = Key {
        head: Vec::new(),
        seconds: if desc {
            -(t.seconds as i128)
        } else {
            t.seconds as i128
        },
        nanos: if desc {
            -(t.nanos as i128)
        } else {
            t.nanos as i128
        },
        id: to_chars(e.insert_id.as_str()),
        tail: to_chars(e.log_name.as_str()),
    };
    assert(r.head@ =~= Seq::<char>::empty());
    r
}

/// Whether two log names have the same owner.
pub fn same_owner(a: &String, b: &String) -> (r: bool)
    ensures
        r == (owner_of(a@) == owner_of(b@)),
{
    let ca = to_chars(a.as_str());
    let cb = to_chars(b.as_str());
    let ka = find_logs(&ca);
    let kb = find_logs(&cb);
    let oa = slice_chars(&ca, 0, ka);
    let ob = slice_chars(&cb, 0, kb);
    compare_text(&oa, &ob) == 0
}

fn is_same_slot(a: &LogEntry, b: &LogEntry) -> (r: bool)
    ensures
        r == same_slot(a@, b@),
{
    let ta = match a.timestamp {
        Some(t) => t,
        None => Timestamp { seconds: 0, nanos: 0 },
    };
    let tb = match b.timestamp {
        Some(t) => t,
        None => Timestamp { seconds: 0, nanos: 0 },
    };
    ta == tb && a.insert_id == b.insert_id
}

fn token_key_of(t: &PageToken, desc: bool) -> (r: Key)
    ensures
        key_view(r) == token_key(t@, desc),
{
    let r = Key {
        head: Vec::new(),
        seconds: if desc {
            -(t.seconds as i128)
        } else {
            t.seconds as i128
        },
        nanos: if desc {
            -(t.nanos as i128)
        } else {
            t.nanos as i128
        },
        id: to_chars(t.insert_id.as_str()),
        tail: to_chars(t.log_name.as_str()),
    };
    assert(r.head@ =~= Seq::<char>::empty());
    r
}

/// Counts the positions of a scan whose key sorts below `k`.
fn count_keys_below(
    keys: &Vec<Key>,
    order: &Vec<usize>,
    k: &Key,
    es: Ghost<Seq<EntryModel>>,
    desc: Ghost<bool>,
) -> (r: usize)
    requires
        order@.len() == es@.len(),
        forall|p: int|
            0 <= p < order@.len() ==> (#[trigger] order@[p]) < keys@.len() && key_view(
                keys@[order@[p] as int],
            ) == query_key(es@[p], desc@),
    ensures
        r as int == count_below(es@, desc@, key_view(*k), es@.len() as int),
        r <= es@.len(),
{
    let mut c: usize = 0;
    let mut p: usize = 0;
    while p < order.len()
        invariant
            p <= order@.len(),
            order@.len() == es@.len(),
            c <= p,
            c as int == count_below(es@, desc@, key_view(*k), p as int),
            forall|q: int|
                0 <= q < order@.len() ==> (#[trigger] order@[q]) < keys@.len() && key_view(
                    keys@[order@[q] as int],
                ) == query_key(es@[q], desc@),
        decreases order@.len() - p,
    {
        assert(order@[p as int] < keys@.len());
        if key_less(&keys[order[p]], k) {
            c = c + 1;
        }
        p = p + 1;
    }
    c
}

impl LogPipeline {
    fn is_listed(
        &self,
        names: &Vec<String>,
        cs: &Vec<Vec<char>>,
        filter: &Filter,
        now: Timestamp,
        e: &LogEntry,
    ) -> (r: bool)
        requires
            filter.wf(),
            cs@.len() == names@.len(),
            forall|j: int| 0 <= j < names@.len() ==> (#[trigger] cs@[j])@ == names@[j]@,
        ensures
            r == listed(
                texts_of(names@),
                Window { now, retention: self.retention_seconds as int },
                filter.expr,
                e@,
            ),
    {
        let ghost ns = texts_of(names@);
        let ln = to_chars(e.log_name.as_str());
        let hit = in_scope(cs, &ln);
        proof {
            assert forall|j: int| 0 <= j < names@.len() implies under(ln@, #[trigger] cs@[j]@)
                == under(ln@, ns[j]) by {}
            if hit {
                let j = choose|j: int| 0 <= j < cs@.len() && under(ln@, #[trigger] cs@[j]@);
                assert(under(e@.log_name, ns[j]));
            }
            if in_scopes(ns, e@.log_name) {
                let j = choose|j: int| 0 <= j < ns.len() && under(e@.log_name, #[trigger] ns[j]);
                assert(under(ln@, cs@[j]@));
            }
        }
        within_window(e.timestamp, now, self.retention_seconds) && hit && filter.matches(e)
    }

    /// One page of a query with a compiled filter (see `is_page`).
    pub fn list_page(
        &self,
        names: &Vec<String>,
        filter: &Filter,
        desc: bool,
        page_size: usize,
        token: &Option<PageToken>,
        now: Timestamp,
    ) -> (r: ListLogEntriesResponse)
        requires
            filter.wf(),
        ensures
            is_page(
                entries_view(self.store@),
                texts_of(names@),
                Window { now, retention: self.retention_seconds as int },
                filter.expr,
                desc,
                opt_token(*token),
                effective_size(page_size),
                entries_view(r.entries@),
                opt_token(r.next_page_token),
            ),
    {
        let ghost store = entries_view(self.store@);
        let ghost ns = texts_of(names@);
        let ghost w = Window { now, retention: self.retention_seconds as int };
        let mut cs: Vec<Vec<char>> = Vec::new();
        let mut i: usize = 0;
        while i < names.len()
            invariant
                i <= names@.len(),
                cs@.len() == i,
                forall|j: int| 0 <= j < i ==> (#[trigger] cs@[j])@ == names@[j]@,
            decreases names@.len() - i,
        {
            cs.push(to_chars(names[i].as_str()));
            i = i + 1;
        }
        let mut keys: Vec<Key> = Vec::new();
        let mut k: usize = 0;
        while k < self.store.len()
            invariant
                k <= self.store@.len(),
                store == entries_view(self.store@),
                keys@.len() == k,
                forall|j: int| 0 <= j < k ==> key_view(#[trigger] keys@[j]) == query_key(store[j], desc),
            decreases self.store@.len() - k,
        {
            keys.push(query_key_of(&self.store[k], desc));
            k = k + 1;
        }
        assert(keys_view(keys@) =~= query_keys(store, desc));
        let order = sort_keys(&keys);
        let ghost es = arranged(order@, store);
        let n = order.len();
        let size = if page_size == 0 {
            DEFAULT_PAGE_SIZE
        } else {
            page_size
        };
        proof {
            assert forall|q: int| 0 <= q < order@.len() implies (#[trigger] order@[q]) < keys@.len()
                && key_view(keys@[order@[q] as int]) == query_key(es[q], desc) by {
                assert(es[q] == store[order@[q] as int]);
            }
        }
        let from: usize = match token {
            None => 0,
            Some(t) => {
                let tk = token_key_of(t, desc);
                let c = count_keys_below(&keys, &order, &tk, Ghost(es), Ghost(desc));
                if t.passed < n - c {
                    c + t.passed
                } else {
                    n
                }
            },
        };
        assert(from as int == scan_from(es, desc, opt_token(*token)));
        let mut out: Vec<LogEntry> = Vec::new();
        let mut p: usize = from;
        let mut c: usize = 0;
        while p < n && c < size
            invariant
                n == order@.len(),
                n == self.store@.len(),
                store == entries_view(self.store@),
                ns == texts_of(names@),
                cs@.len() == names@.len(),
                forall|j: int| 0 <= j < names@.len() ==> (#[trigger] cs@[j])@ == names@[j]@,
                is_permutation(order@, n as nat),
                es == arranged(order@, store),
                filter.wf(),
                from <= p <= n,
                c <= size,
                w == (Window { now, retention: self.retention_seconds as int }),
                page_end(es, ns, w, filter.expr, from as int, size as nat) == page_end(
                    es,
                    ns,
                    w,
                    filter.expr,
                    p as int,
                    (size - c) as nat,
                ),
                entries_view(out@) == picked(es, ns, w, filter.expr, from as int, p as int),
            decreases n - p,
        {
            let e = &self.store[order[p]];
            assert(es[p as int] == e@);
            let hit = self.is_listed(names, &cs, filter, now, e);
            let mut found = false;
            if hit {
                let mut stop = false;
                let mut q: usize = p;
                while q > 0 && !found && !stop
                    invariant
                        q <= p < n,
                        n == order@.len(),
                        n == self.store@.len(),
                        store == entries_view(self.store@),
                        ns == texts_of(names@),
                        cs@.len() == names@.len(),
                        forall|j: int| 0 <= j < names@.len() ==> (#[trigger] cs@[j])@ == names@[j]@,
                        is_permutation(order@, n as nat),
                        es == arranged(order@, store),
                        es[p as int] == e@,
                        filter.wf(),
                        w == (Window { now, retention: self.retention_seconds as int }),
                        found ==> dup_before(es, ns, w, filter.expr, p as int, p as int),
                        !found ==> (dup_before(es, ns, w, filter.expr, p as int, p as int)
                            == (!stop && dup_before(es, ns, w, filter.expr, p as int, q as int))),
                    decreases q + if !found && !stop {
                        1int
                    } else {
                        0int
                    },
                {
                    let f = &self.store[order[q - 1]];
                    assert(es[q - 1] == f@);
                    if !is_same_slot(f, e) {
                        stop = true;
                    } else if self.is_listed(names, &cs, filter, now, f) && same_owner(
                        &f.log_name,
                        &e.log_name,
                    ) {
                        found = true;
                    } else {
                        q = q - 1;
                    }
                }
            }
            let ghost before = entries_view(out@);
            if hit && !found {
                out.push(e.duplicate());
                assert(entries_view(out@) =~= before.push(e@));
                c = c + 1;
            }
            p = p + 1;
        }
        let next = if p < n {
            let e = &self.store[order[p]];
            assert(es[p as int] == e@);
            assert(order@[p as int] < keys@.len());
            let c = count_keys_below(&keys, &order, &keys[order[p]], Ghost(es), Ghost(desc));
            let t = match e.timestamp {
                Some(t) => t,
                None => Timestamp { seconds: 0, nanos: 0 },
            };
            Some(
                PageToken {
                    seconds: t.seconds,
                    nanos: t.nanos,
                    insert_id: e.insert_id.clone(),
                    log_name: e.log_name.clone(),
                    passed: if c <= p {
                        p - c
                    } else {
                        0
                    },
                },
            )
        } else {
            None
        };
        assert(opt_token(next) == next_token(es, desc, p as int));
        proof {
            assert(page_end(es, ns, w, filter.expr, p as int, (size - c) as nat) == p);
            assert(is_permutation(order@, store.len()) && stably_sorted(
                order@,
                query_keys(store, desc),
            ));
        }
        ListLogEntriesResponse { entries: out, next_page_token: next }
    }

    /// Serves a query at time `now`: checks it, compiles its filter, and
    /// returns the page the token points at (see `list_page`).
    pub fn list_log_entries(&self, req: &ListLogEntriesRequest, now: Timestamp) -> (r: Result<
        ListLogEntriesResponse,
        ListError,
    >)
        ensures
            match r {
                Ok(resp) => {
                    &&& req.resource_names@.len() > 0
                    &&& order_desc(req.order_by@) is Some
                    &&& exists|f: Filter|
                        f.wf() && filter_syntax(req.filter@) == Ok::<ExprModel, FilterError>(
                            expr_model(f.expr),
                        ) && is_page(
                            entries_view(self.store@),
                            texts_of(req.resource_names@),
                            Window { now, retention: self.retention_seconds as int },
                            f.expr,
                            order_desc(req.order_by@)->0,
                            opt_token(req.page_token),
                            effective_size(req.page_size),
                            entries_view(resp.entries@),
                            opt_token(resp.next_page_token),
                        )
                },
                Err(ListError::MissingResourceNames) => req.resource_names@.len() == 0,
                Err(ListError::InvalidOrderBy) => req.resource_names@.len() > 0 && order_desc(
                    req.order_by@,
                ) is None,
                Err(ListError::InvalidFilter(e)) => e.position <= req.filter@.len() && filter_syntax(
                    req.filter@,
                ) == Err::<ExprModel, FilterError>(e),
            },
    {
        if req.resource_names.len() == 0 {
            return Err(ListError::MissingResourceNames);
        }
        let ob = to_chars(req.order_by.as_str());
        let desc = if ob.len() == 0 || chars_eq_str(&ob, "timestamp asc") {
            false
        } else if chars_eq_str(&ob, "timestamp desc") {
            true
        } else {
            return Err(ListError::InvalidOrderBy);
        };
        let f = match compile(req.filter.as_str()) {
            Ok(f) => f,
            Err(e) => return Err(ListError::InvalidFilter(e)),
        };
        let resp = self.list_page(&req.resource_names, &f, desc, req.page_size, &req.page_token, now);
        Ok(resp)
    }

    /// Deletes every stored entry of the log `req.log_name`, and records the
    /// deletion at `now` so that entries of that log stamped no later than
    /// `now` are not stored by later writes.
    pub fn delete_log(&mut self, req: &DeleteLogRequest, now: Timestamp) -> (r: Result<(), DeleteError>)
        ensures
            r is Err <==> !log_name_valid(req.log_name@),
            r is Err ==> final(self).tombstones == old(self).tombstones && final(self).store
                == old(self).store,
            r is Ok ==> final(self).tombstones@.len() == old(self).tombstones@.len() + 1
                && final(self).tombstones@.subrange(0, old(self).tombstones@.len() as int)
                == old(self).tombstones@ && final(self).tombstones@.last().log_name@
                == req.log_name@ && final(self).tombstones@.last().at == now && entries_view(
                final(self).store@,
            ) == entries_view(old(self).store@).filter(
                |e: EntryModel| e.log_name != req.log_name@,
            ),
            final(self).queues == old(self).queues,
            final(self).metric_states == old(self).metric_states,
            final(self).scopes == old(self).scopes,
            final(self).exclusions == old(self).exclusions,
            final(self).sinks == old(self).sinks,
            final(self).metrics == old(self).metrics,
            final(self).retention_seconds == old(self).retention_seconds,
    {
        let name_chars = to_chars(req.log_name.as_str());
        if !valid_log_name(&name_chars) {
            return Err(DeleteError::InvalidArgument);
        }
        let log_name = &req.log_name;
        let mut kept: Vec<LogEntry> = Vec::new();
        let ghost all = entries_view(self.store@);
        let mut i: usize = 0;
        while i < self.store.len()
            invariant
                i <= self.store@.len(),
                all == entries_view(self.store@),
                entries_view(kept@) == all.subrange(0, i as int).filter(
                    |e: EntryModel| e.log_name != log_name@,
                ),
            decreases self.store@.len() - i,
        {
            let ghost pre = all.subrange(0, i as int + 1);
            assert(pre.drop_last() =~= all.subrange(0, i as int));
            let ghost before = entries_view(kept@);
            if !(self.store[i].log_name == *log_name) {
                kept.push(self.store[i].duplicate());
                assert(entries_view(kept@) =~= before.push(all[i as int]));
            }
            proof {
                reveal(Seq::filter);
                assert(pre.last() == all[i as int]);
            }
            i = i + 1;
        }
        assert(all.subrange(0, i as int) =~= all);
        self.store = kept;
        let ghost before = self.tombstones@;
        self.tombstones.push(Tombstone { log_name: log_name.clone(), at: now });
        assert(self.tombstones@.subrange(0, before.len() as int) =~= before);
        Ok(())
    }
}

proof fn lemma_picked_from(es: Seq<EntryModel>, names: Seq<Text>, w: Window, x: Expr, from: int, end: int)
    ensures
        forall|k: int|
            0 <= k < picked(es, names, w, x, from, end).len() ==> exists|j: int|
                from <= j < end && #[trigger] picked(es, names, w, x, from, end)[k] == es[j],
    decreases end - from,
{
    if end > from {
        lemma_picked_from(es, names, w, x, from, end - 1);
        let p = picked(es, names, w, x, from, end - 1);
        assert forall|k: int|
            0 <= k < picked(es, names, w, x, from, end).len() implies exists|j: int|
                from <= j < end && #[trigger] picked(es, names, w, x, from, end)[k] == es[j] by {
            if k < p.len() {
                let j = choose|j: int| from <= j < end - 1 && p[k] == es[j];
                assert(picked(es, names, w, x, from, end)[k] == es[j]);
            } else {
                assert(picked(es, names, w, x, from, end)[k] == es[end - 1]);
            }
        }
    }
}

/// A page returns stored entries as they are: each of its entries equals
/// one of the stored entries, field for field.
pub proof fn lemma_page_entries_are_stored(
    store: Seq<EntryModel>,
    names: Seq<Text>,
    w: Window,
    x: Expr,
    desc: bool,
    tok: Option<TokenModel>,
    size: nat,
    entries: Seq<EntryModel>,
    next: Option<TokenModel>,
)
    requires
        is_page(store, names, w, x, desc, tok, size, entries, next),
    ensures
        forall|k: int| 0 <= k < entries.len() ==> exists|j: int| 0 <= j < store.len() && #[trigger] entries[k] == store[j],
{
    let order = choose|order: Seq<usize>|
        #![trigger arranged(order, store)]
        is_permutation(order, store.len()) && stably_sorted(order, query_keys(store, desc)) && ({
            let es = arranged(order, store);
            let from = scan_from(es, desc, tok);
            let end = page_end(es, names, w, x, from, size);
            &&& entries == picked(es, names, w, x, from, end)
            &&& next == next_token(es, desc, end)
        });
    let es = arranged(order, store);
    let from = scan_from(es, desc, tok);
    let end = page_end(es, names, w, x, from, size);
    lemma_picked_from(es, names, w, x, from, end);
    lemma_page_end_bounds(es, names, w, x, from, size);
    assert forall|k: int| 0 <= k < entries.len() implies exists|j: int|
        0 <= j < store.len() && #[trigger] entries[k] == store[j] by {
        let i = choose|i: int| from <= i < end && entries[k] == es[i];
        assert(es[i] == store[order[i] as int]);
    }
}

proof fn lemma_page_end_bounds(es: Seq<EntryModel>, names: Seq<Text>, w: Window, x: Expr, from: int, size: nat)
    ensures
        0 <= from <= es.len() ==> from <= page_end(es, names, w, x, from, size) <= es.len(),
        !(0 <= from <= es.len()) ==> page_end(es, names, w, x, from, size) == from,
    decreases es.len() - from,
{
    if 0 <= from < es.len() && size > 0 {
        if returned(es, names, w, x, from) {
            lemma_page_end_bounds(es, names, w, x, from + 1, (size - 1) as nat);
        } else {
            lemma_page_end_bounds(es, names, w, x, from + 1, size);
        }
    }
}

/// In a scan sorted by query key, entries between two entries of one slot
/// (timestamp and insert id) have that slot too.
proof fn lemma_slot_between(order: Seq<usize>, store: Seq<EntryModel>, desc: bool, i: int, j: int, k: int)
    requires
        is_permutation(order, store.len()),
        stably_sorted(order, query_keys(store, desc)),
        0 <= i <= j <= k < order.len(),
        same_slot(arranged(order, store)[i], arranged(order, store)[k]),
    ensures
        same_slot(arranged(order, store)[j], arranged(order, store)[k]),
{
    let es = arranged(order, store);
    let ks = query_keys(store, desc);
    let (ki, kj, kk) = (ks[order[i] as int], ks[order[j] as int], ks[order[k] as int]);
    assert(ki == query_key(es[i], desc));
    assert(kj == query_key(es[j], desc));
    assert(kk == query_key(es[k], desc));
    if i < j {
        assert(!key_lt(kj, ki));
    }
    if j < k {
        assert(!key_lt(kk, kj));
    }
    lemma_text_lt_irreflexive(ki.head);
    if kj.id != ki.id {
        lemma_text_lt_total(kj.id, ki.id);
    }
    assert(kj.seconds == ki.seconds && kj.nanos == ki.nanos && kj.id == ki.id);
}

proof fn lemma_dup_reaches(es: Seq<EntryModel>, names: Seq<Text>, w: Window, x: Expr, order: Seq<usize>, store: Seq<EntryModel>, desc: bool, i: int, k: int, q: int)
    requires
        is_permutation(order, store.len()),
        stably_sorted(order, query_keys(store, desc)),
        es == arranged(order, store),
        0 <= i < q <= k < es.len(),
        same_slot(es[i], es[k]),
        listed(names, w, x, es[i]),
        owner_of(es[i].log_name) == owner_of(es[k].log_name),
    ensures
        dup_before(es, names, w, x, k, q),
    decreases q,
{
    lemma_slot_between(order, store, desc, i, q - 1, k);
    if q - 1 > i {
        lemma_dup_reaches(es, names, w, x, order, store, desc, i, k, q - 1);
    }
}

/// A scan returns at most one entry of each owner for each timestamp and
/// insert id: two returned entries of one owner differ in one of them.
pub proof fn lemma_returned_distinct(
    order: Seq<usize>,
    store: Seq<EntryModel>,
    desc: bool,
    names: Seq<Text>,
    w: Window,
    x: Expr,
    i: int,
    k: int,
)
    requires
        is_permutation(order, store.len()),
        stably_sorted(order, query_keys(store, desc)),
        0 <= i < k < order.len(),
        returned(arranged(order, store), names, w, x, i),
        returned(arranged(order, store), names, w, x, k),
    ensures
        !(same_slot(arranged(order, store)[i], arranged(order, store)[k]) && owner_of(
            arranged(order, store)[i].log_name,
        ) == owner_of(arranged(order, store)[k].log_name)),
{
    let es = arranged(order, store);
    if same_slot(es[i], es[k]) && owner_of(es[i].log_name) == owner_of(es[k].log_name) {
        lemma_dup_reaches(es, names, w, x, order, store, desc, i, k, k);
    }
}

/// A query answers the same on the same store, query and time: its page and
/// token are functions of them (the scan order being unique).
pub proof fn lemma_page_deterministic(
    store: Seq<EntryModel>,
    names: Seq<Text>,
    w: Window,
    x: Expr,
    desc: bool,
    tok: Option<TokenModel>,
    size: nat,
    e1: Seq<EntryModel>,
    n1: Option<TokenModel>,
    e2: Seq<EntryModel>,
    n2: Option<TokenModel>,
)
    requires
        is_page(store, names, w, x, desc, tok, size, e1, n1),
        is_page(store, names, w, x, desc, tok, size, e2, n2),
    ensures
        e1 == e2,
        n1 == n2,
{
    let o1 = choose|order: Seq<usize>|
        #![trigger arranged(order, store)]
        is_permutation(order, store.len()) && stably_sorted(order, query_keys(store, desc)) && ({
            let es = arranged(order, store);
            let from = scan_from(es, desc, tok);
            let end = page_end(es, names, w, x, from, size);
            &&& e1 == picked(es, names, w, x, from, end)
            &&& n1 == next_token(es, desc, end)
        });
    let o2 = choose|order: Seq<usize>|
        #![trigger arranged(order, store)]
        is_permutation(order, store.len()) && stably_sorted(order, query_keys(store, desc)) && ({
            let es = arranged(order, store);
            let from = scan_from(es, desc, tok);
            let end = page_end(es, names, w, x, from, size);
            &&& e2 == picked(es, names, w, x, from, end)
            &&& n2 == next_token(es, desc, end)
        });
    assert(query_keys(store, desc).len() == store.len());
    lemma_stable_order_unique(o1, o2, query_keys(store, desc));
}

proof fn lemma_same_listing(
    es: Seq<EntryModel>,
    names: Seq<Text>,
    w: Window,
    x1: Expr,
    x2: Expr,
)
    requires
        expr_wf(x1),
        expr_wf(x2),
        expr_model(x1) == expr_model(x2),
    ensures
        forall|i: int, q: int|
            dup_before(es, names, w, x1, i, q) == #[trigger] dup_before(es, names, w, x2, i, q),
        forall|i: int| returned(es, names, w, x1, i) == #[trigger] returned(es, names, w, x2, i),
{
    assert forall|e: EntryModel| listed(names, w, x1, e) == #[trigger] listed(names, w, x2, e) by {
        lemma_eval_by_model(x1, x2, e);
    }
    assert forall|i: int, q: int|
        dup_before(es, names, w, x1, i, q) == #[trigger] dup_before(es, names, w, x2, i, q) by {
        lemma_same_dup(es, names, w, x1, x2, i, q);
    }
}

proof fn lemma_same_dup(es: Seq<EntryModel>, names: Seq<Text>, w: Window, x1: Expr, x2: Expr, i: int, q: int)
    requires
        forall|e: EntryModel| listed(names, w, x1, e) == #[trigger] listed(names, w, x2, e),
    ensures
        dup_before(es, names, w, x1, i, q) == dup_before(es, names, w, x2, i, q),
    decreases q,
{
    if q > 0 {
        lemma_same_dup(es, names, w, x1, x2, i, q - 1);
    }
}

proof fn lemma_same_page_end(
    es: Seq<EntryModel>,
    names: Seq<Text>,
    w: Window,
    x1: Expr,
    x2: Expr,
    from: int,
    size: nat,
)
    requires
        forall|i: int| returned(es, names, w, x1, i) == #[trigger] returned(es, names, w, x2, i),
    ensures
        page_end(es, names, w, x1, from, size) == page_end(es, names, w, x2, from, size),
    decreases es.len() - from,
{
    if 0 <= from < es.len() && size > 0 {
        lemma_same_page_end(es, names, w, x1, x2, from + 1, (size - 1) as nat);
        lemma_same_page_end(es, names, w, x1, x2, from + 1, size);
    }
}

proof fn lemma_same_picked(es: Seq<EntryModel>, names: Seq<Text>, w: Window, x1: Expr, x2: Expr, from: int, end: int)
    requires
        forall|i: int| returned(es, names, w, x1, i) == #[trigger] returned(es, names, w, x2, i),
    ensures
        picked(es, names, w, x1, from, end) == picked(es, names, w, x2, from, end),
    decreases end - from,
{
    if end > from {
        lemma_same_picked(es, names, w, x1, x2, from, end - 1);
    }
}

/// A query answers the same whenever it is asked again on the same store
/// and time: two filters compiled from one text (one model) give the same
/// page and the same token. With `list_log_entries`, whose result names a
/// filter compiled from the request's text, two calls with one request
/// return the same entries in the same order.
pub proof fn lemma_list_deterministic(
    store: Seq<EntryModel>,
    names: Seq<Text>,
    w: Window,
    desc: bool,
    tok: Option<TokenModel>,
    size: nat,
    x1: Expr,
    x2: Expr,
    e1: Seq<EntryModel>,
    n1: Option<TokenModel>,
    e2: Seq<EntryModel>,
    n2: Option<TokenModel>,
)
    requires
        expr_wf(x1),
        expr_wf(x2),
        expr_model(x1) == expr_model(x2),
        is_page(store, names, w, x1, desc, tok, size, e1, n1),
        is_page(store, names, w, x2, desc, tok, size, e2, n2),
    ensures
        e1 == e2,
        n1 == n2,
{
    let o1 = choose|order: Seq<usize>|
        #![trigger arranged(order, store)]
        is_permutation(order, store.len()) && stably_sorted(order, query_keys(store, desc)) && ({
            let es = arranged(order, store);
            let from = scan_from(es, desc, tok);
            let end = page_end(es, names, w, x1, from, size);
            &&& e1 == picked(es, names, w, x1, from, end)
            &&& n1 == next_token(es, desc, end)
        });
    let o2 = choose|order: Seq<usize>|
        #![trigger arranged(order, store)]
        is_permutation(order, store.len()) && stably_sorted(order, query_keys(store, desc)) && ({
            let es = arranged(order, store);
            let from = scan_from(es, desc, tok);
            let end = page_end(es, names, w, x2, from, size);
            &&& e2 == picked(es, names, w, x2, from, end)
            &&& n2 == next_token(es, desc, end)
        });
    assert(query_keys(store, desc).len() == store.len());
    lemma_stable_order_unique(o1, o2, query_keys(store, desc));
    let es = arranged(o1, store);
    let from = scan_from(es, desc, tok);
    lemma_same_listing(es, names, w, x1, x2);
    lemma_same_page_end(es, names, w, x1, x2, from, size);
    let end = page_end(es, names, w, x1, from, size);
    lemma_same_picked(es, names, w, x1, x2, from, end);
}

proof fn lemma_page_end_full(es: Seq<EntryModel>, names: Seq<Text>, w: Window, x: Expr, from: int, size: nat)
    requires
        0 <= from <= es.len(),
        size >= es.len() - from,
    ensures
        page_end(es, names, w, x, from, size) == es.len(),
    decreases es.len() - from,
{
    if from < es.len() {
        if returned(es, names, w, x, from) {
            lemma_page_end_full(es, names, w, x, from + 1, (size - 1) as nat);
        } else {
            lemma_page_end_full(es, names, w, x, from + 1, size);
        }
    }
}

proof fn lemma_picked_contains(es: Seq<EntryModel>, names: Seq<Text>, w: Window, x: Expr, from: int, end: int, p: int)
    requires
        from <= p < end,
        returned(es, names, w, x, p),
    ensures
        exists|k: int|
            0 <= k < picked(es, names, w, x, from, end).len() && #[trigger] picked(
                es,
                names,
                w,
                x,
                from,
                end,
            )[k] == es[p],
    decreases end - from,
{
    let pk = picked(es, names, w, x, from, end - 1);
    if p == end - 1 {
        assert(picked(es, names, w, x, from, end)[pk.len() as int] == es[p]);
    } else {
        lemma_picked_contains(es, names, w, x, from, end - 1, p);
        let k = choose|k: int| 0 <= k < pk.len() && #[trigger] pk[k] == es[p];
        assert(picked(es, names, w, x, from, end)[k] == es[p]);
    }
}

proof fn lemma_dup_witness(es: Seq<EntryModel>, names: Seq<Text>, w: Window, x: Expr, i: int, q: int)
    requires
        dup_before(es, names, w, x, i, q),
    ensures
        exists|j: int|
            0 <= j < q && j < i && #[trigger] same_slot(es[j], es[i]) && owner_of(es[j].log_name)
                == owner_of(es[i].log_name),
    decreases q,
{
    if !(listed(names, w, x, es[q - 1]) && owner_of(es[q - 1].log_name) == owner_of(es[i].log_name)) {
        lemma_dup_witness(es, names, w, x, i, q - 1);
    } else {
        assert(same_slot(es[q - 1], es[i]));
    }
}

/// Round trip: an entry written on its own, with its own log name,
/// resource, timestamp and insert id, and kept by the write, comes back
/// from a query that lists it (its scope, its filter, its time window), on
/// a page large enough for the whole store, with exactly its own field
/// values (the receive time stamped), unless an earlier entry of its owner
/// has the same timestamp and insert id (then that one stands for it).
pub proof fn lemma_write_then_list(
    before: LogPipeline,
    after: PipelineModel,
    e: EntryModel,
    d: DefaultsModel,
    now: Timestamp,
    prefix: Text,
    names: Seq<Text>,
    w: Window,
    x: Expr,
    desc: bool,
    size: nat,
    entries: Seq<EntryModel>,
    next: Option<TokenModel>,
)
    requires
        e.log_name.len() > 0,
        e.resource is Some,
        e.timestamp is Some,
        e.insert_id.len() > 0,
        forall|i: int| 0 <= i < d.labels.len() ==> label_lookup(e.labels, (#[trigger] d.labels[i]).0) is Some,
        stored_in_key_order(before, after, normalized_batch(seq![e], d, now, prefix)),
        keeps(before, EntryModel { receive_timestamp: Some(now), ..e }),
        forall|j: int|
            0 <= j < before@.store.len() ==> !(#[trigger] same_slot(
                before@.store[j],
                EntryModel { receive_timestamp: Some(now), ..e },
            ) && owner_of(before@.store[j].log_name) == owner_of(e.log_name)),
        listed(names, w, x, EntryModel { receive_timestamp: Some(now), ..e }),
        size >= after.store.len(),
        is_page(after.store, names, w, x, desc, None, size, entries, next),
    ensures
        exists|k: int|
            0 <= k < entries.len() && #[trigger] entries[k] == (EntryModel {
                receive_timestamp: Some(now),
                ..e
            }),
{
    let stamped = EntryModel { receive_timestamp: Some(now), ..e };
    lemma_written_entry_stored_unchanged(before, after, e, d, now, prefix);
    let store = after.store;
    let last = before@.store.len() as int;
    assert(store[last] == stamped);
    let order = choose|order: Seq<usize>|
        #![trigger arranged(order, store)]
        is_permutation(order, store.len()) && stably_sorted(order, query_keys(store, desc)) && ({
            let es = arranged(order, store);
            let from = scan_from(es, desc, None);
            let end = page_end(es, names, w, x, from, size);
            &&& entries == picked(es, names, w, x, from, end)
            &&& next == next_token(es, desc, end)
        });
    let es = arranged(order, store);
    assert(lists(order, last));
    let p = choose|i: int| 0 <= i < order.len() && order[i] == last;
    assert(es[p] == stamped);
    if dup_before(es, names, w, x, p, p) {
        lemma_dup_witness(es, names, w, x, p, p);
        let j = choose|j: int|
            0 <= j < p && j < p && #[trigger] same_slot(es[j], es[p]) && owner_of(es[j].log_name)
                == owner_of(es[p].log_name);
        assert(order[j] != order[p]);
        assert(es[j] == store[order[j] as int]);
        assert(store[order[j] as int] == before@.store[order[j] as int]);
    }
    assert(returned(es, names, w, x, p));
    lemma_page_end_full(es, names, w, x, 0, size);
    lemma_picked_contains(es, names, w, x, 0, es.len() as int, p);
}

} // verus!
