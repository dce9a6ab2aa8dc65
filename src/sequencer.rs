//! Normalization of a written batch and its stable order by
//! `(log_name, timestamp, insert_id)`.
use vstd::prelude::*;
use crate::entry::{
    EntryModel, Label, LogEntry, MonitoredResource, ResourceModel, Text, Timestamp, copy_labels,
    entries_view, find_label, label_lookup, labels_view,
};
use crate::filter::ts_or_epoch;
use crate::text::{
    compare_text, lemma_text_lt_common_prefix, lemma_text_lt_irreflexive,
    lemma_text_lt_push, lemma_text_lt_total, lemma_text_lt_transitive, pow10, text_lt, to_chars,
};

verus! {

/// Values a write request supplies for entries that leave them empty.
#[derive(Debug)]
pub struct WriteDefaults {
    pub log_name: String,
    pub resource: Option<MonitoredResource>,
    pub labels: Vec<Label>,
}

pub struct DefaultsModel {
    pub log_name: Text,
    pub resource: Option<ResourceModel>,
    pub labels: Seq<(Text, Text)>,
}

impl View for WriteDefaults {
    type V = DefaultsModel;

    open spec fn view(&self) -> DefaultsModel {
        DefaultsModel {
            log_name: self.log_name@,
            resource: match self.resource {
                Some(r) => Some(r@),
                None => None,
            },
            labels: labels_view(self.labels@),
        }
    }
}

/// The entry's own labels, then each default label whose key the entry does
/// not have.
pub open spec fn merge_labels(own: Seq<(Text, Text)>, defs: Seq<(Text, Text)>) -> Seq<(Text, Text)>
    decreases defs.len(),
{
    if defs.len() == 0 {
        own
    } else {
        let m = merge_labels(own, defs.drop_last());
        if label_lookup(own, defs.last().0) is Some {
            m
        } else {
            m.push(defs.last())
        }
    }
}

pub open spec fn digit_char(d: int) -> char {
    if d <= 0 {
        '0'
    } else if d == 1 {
        '1'
    } else if d == 2 {
        '2'
    } else if d == 3 {
        '3'
    } else if d == 4 {
        '4'
    } else if d == 5 {
        '5'
    } else if d == 6 {
        '6'
    } else if d == 7 {
        '7'
    } else if d == 8 {
        '8'
    } else {
        '9'
    }
}

/// `i` written in decimal with exactly `w` digits (the low ones).
pub open spec fn decimal(i: nat, w: nat) -> Text
    decreases w,
{
    if w == 0 {
        Seq::empty()
    } else {
        decimal(i / 10, (w - 1) as nat).push(digit_char((i % 10) as int))
    }
}

/// Width of the counter in a generated insert id.
pub const ID_DIGITS: usize = 20;

/// The insert id given to the entry at `index` of a batch that left it
/// empty: the batch's prefix and the index in twenty decimal digits.
pub open spec fn generated_id(prefix: Text, index: nat) -> Text {
    prefix + decimal(index, ID_DIGITS as nat)
}

pub open spec fn normalized(e: EntryModel, d: DefaultsModel, now: Timestamp, id: Text) -> EntryModel {
    EntryModel {
        log_name: if e.log_name.len() == 0 {
            d.log_name
        } else {
            e.log_name
        },
        resource: if e.resource is None {
            d.resource
        } else {
            e.resource
        },
        timestamp: if e.timestamp is None {
            Some(now)
        } else {
            e.timestamp
        },
        receive_timestamp: Some(now),
        severity: e.severity,
        insert_id: if e.insert_id.len() == 0 {
            id
        } else {
            e.insert_id
        },
        labels: merge_labels(e.labels, d.labels),
        trace: e.trace,
        span_id: e.span_id,
        trace_sampled: e.trace_sampled,
        source_location: e.source_location,
        operation: e.operation,
        payload: e.payload,
    }
}

/// The batch after defaults: entry `i` with generated id `i`.
pub open spec fn normalized_batch(
    batch: Seq<EntryModel>,
    d: DefaultsModel,
    now: Timestamp,
    prefix: Text,
) -> Seq<EntryModel> {
    Seq::new(
        batch.len(),
        |i: int| normalized(batch[i], d, now, generated_id(prefix, i as nat)),
    )
}

pub fn push_digit(s: &mut String, d: u64)
    requires
        d < 10,
    ensures
        final(s)@ == old(s)@.push(digit_char(d as int)),
{
    let t = if d == 0 {
        proof {
            reveal_strlit("0");
        }
        "0"
    } else if d == 1 {
        proof {
            reveal_strlit("1");
        }
        "1"
    } else if d == 2 {
        proof {
            reveal_strlit("2");
        }
        "2"
    } else if d == 3 {
        proof {
            reveal_strlit("3");
        }
        "3"
    } else if d == 4 {
        proof {
            reveal_strlit("4");
        }
        "4"
    } else if d == 5 {
        proof {
            reveal_strlit("5");
        }
        "5"
    } else if d == 6 {
        proof {
            reveal_strlit("6");
        }
        "6"
    } else if d == 7 {
        proof {
            reveal_strlit("7");
        }
        "7"
    } else if d == 8 {
        proof {
            reveal_strlit("8");
        }
        "8"
    } else {
        proof {
            reveal_strlit("9");
        }
        "9"
    };
    assert(t@ =~= seq![digit_char(d as int)]);
    s.append(t);
}

fn write_decimal(s: &mut String, i: u64, w: usize)
    ensures
        final(s)@ == old(s)@ + decimal(i as nat, w as nat),
    decreases w,
{
    if w == 0 {
        assert(old(s)@ + decimal(i as nat, 0) =~= old(s)@);
        return;
    }
    write_decimal(s, i / 10, w - 1);
    push_digit(s, i % 10);
    assert(final(s)@ =~= old(s)@ + decimal(i as nat, w as nat));
}

/// `n` in decimal, without leading zeros.
pub open spec fn nat_text(n: nat) -> Text
    decreases n,
{
    if n < 10 {
        seq![digit_char(n as int)]
    } else {
        nat_text(n / 10).push(digit_char((n % 10) as int))
    }
}

/// `n` in decimal, with a minus sign when negative.
pub open spec fn int_text(n: int) -> Text {
    if n < 0 {
        seq!['-'] + nat_text((-n) as nat)
    } else {
        nat_text(n as nat)
    }
}

fn write_nat(s: &mut String, v: u64)
    ensures
        final(s)@ == old(s)@ + nat_text(v as nat),
    decreases v,
{
    if v >= 10 {
        write_nat(s, v / 10);
    }
    push_digit(s, v % 10);
    assert(final(s)@ =~= old(s)@ + nat_text(v as nat));
}

/// Writes `int_text(n)`.
pub fn int_to_string(n: i64) -> (r: String)
    ensures
        r@ == int_text(n as int),
{
    let mut s = String::new();
    if n < 0 {
        proof {
            reveal_strlit("-");
        }
        s.append("-");
        let v: u64 = if n == i64::MIN {
            9223372036854775808u64
        } else {
            (-n) as u64
        };
        write_nat(&mut s, v);
        assert(s@ =~= seq!['-'] + nat_text((-(n as int)) as nat));
    } else {
        write_nat(&mut s, n as u64);
        assert(s@ =~= nat_text(n as nat));
    }
    s
}

/// Builds `generated_id(prefix, index)`.
pub fn make_id(prefix: &str, index: usize) -> (r: String)
    ensures
        r@ == generated_id(prefix@, index as nat),
{
    let mut s = prefix.to_string();
    write_decimal(&mut s, index as u64, ID_DIGITS);
    s
}

pub proof fn lemma_decimal_len(i: nat, w: nat)
    ensures
        decimal(i, w).len() == w,
    decreases w,
{
    if w > 0 {
        lemma_decimal_len(i / 10, (w - 1) as nat);
    }
}

/// Decimal numerals of a fixed width are ordered as the numbers are.
pub proof fn lemma_decimal_order(i: nat, j: nat, w: nat)
    requires
        i < j < pow10(w),
    ensures
        text_lt(decimal(i, w), decimal(j, w)),
    decreases w,
{
    if w == 0 {
        assert(pow10(0) == 1);
    } else {
        let (qi, qj) = (i / 10, j / 10);
        assert(pow10(w) == 10 * pow10((w - 1) as nat));
        assert(qj < pow10((w - 1) as nat));
        lemma_decimal_len(qi, (w - 1) as nat);
        lemma_decimal_len(qj, (w - 1) as nat);
        if qi < qj {
            lemma_decimal_order(qi, qj, (w - 1) as nat);
        } else {
            assert(qi == qj);
            assert(i % 10 < j % 10);
        }
        lemma_text_lt_push(
            decimal(qi, (w - 1) as nat),
            decimal(qj, (w - 1) as nat),
            digit_char((i % 10) as int),
            digit_char((j % 10) as int),
        );
    }
}

/// Fills in what an entry left empty (see `normalized`).
pub fn normalize_entry(e: &LogEntry, d: &WriteDefaults, now: Timestamp, id: String) -> (r:
    LogEntry)
    ensures
        r@ == normalized(e@, d@, now, id@),
{
    let mut labels = copy_labels(&e.labels);
    let mut i: usize = 0;
    while i < d.labels.len()
        invariant
            i <= d.labels@.len(),
            labels_view(labels@) == merge_labels(
                labels_view(e.labels@),
                labels_view(d.labels@).subrange(0, i as int),
            ),
        decreases d.labels@.len() - i,
    {
        let ghost defs = labels_view(d.labels@).subrange(0, i as int + 1);
        assert(defs.drop_last() =~= labels_view(d.labels@).subrange(0, i as int));
        assert(defs.last() == d.labels@[i as int]@);
        if find_label(&e.labels, &d.labels[i].key).is_none() {
            labels.push(d.labels[i].duplicate());
            assert(labels_view(labels@) =~= merge_labels(
                labels_view(e.labels@),
                labels_view(d.labels@).subrange(0, i as int),
            ).push(d.labels@[i as int]@));
        }
        i = i + 1;
    }
    assert(labels_view(d.labels@).subrange(0, i as int) =~= labels_view(d.labels@));
    LogEntry {
        log_name: if e.log_name.as_str().unicode_len() == 0 {
            d.log_name.clone()
        } else {
            e.log_name.clone()
        },
        resource: match &e.resource {
            Some(r) => Some(r.duplicate()),
            None => match &d.resource {
                Some(r) => Some(r.duplicate()),
                None => None,
            },
        },
        timestamp: match e.timestamp {
            Some(t) => Some(t),
            None => Some(now),
        },
        receive_timestamp: Some(now),
        severity: e.severity,
        insert_id: if e.insert_id.as_str().unicode_len() == 0 {
            id
        } else {
            e.insert_id.clone()
        },
        labels,
        trace: e.trace.clone(),
        span_id: e.span_id.clone(),
        trace_sampled: e.trace_sampled,
        source_location: match &e.source_location {
            Some(l) => Some(l.duplicate()),
            None => None,
        },
        operation: match &e.operation {
            Some(o) => Some(o.duplicate()),
            None => None,
        },
        payload: match &e.payload {
            Some(p) => Some(p.duplicate()),
            None => None,
        },
    }
}

/// Normalizes every entry of a batch; `id_prefix` should be unique to the
/// batch, so that generated ids are unique.
pub fn normalize_batch(
    entries: &Vec<LogEntry>,
    d: &WriteDefaults,
    now: Timestamp,
    id_prefix: &str,
) -> (r: Vec<LogEntry>)
    ensures
        entries_view(r@) == normalized_batch(entries_view(entries@), d@, now, id_prefix@),
{
    let mut r: Vec<LogEntry> = Vec::new();
    let mut i: usize = 0;
    while i < entries.len()
        invariant
            i <= entries@.len(),
            entries_view(r@) == normalized_batch(
                entries_view(entries@),
                d@,
                now,
                id_prefix@,
            ).subrange(0, i as int),
        decreases entries@.len() - i,
    {
        let id = make_id(id_prefix, i);
        let e = normalize_entry(&entries[i], d, now, id);
        assert(entries_view(entries@)[i as int] == entries@[i as int]@);
        assert(e@ == normalized_batch(entries_view(entries@), d@, now, id_prefix@)[i as int]);
        let ghost before = entries_view(r@);
        let ghost ev = e@;
        r.push(e);
        assert(entries_view(r@) =~= before.push(ev));
        i = i + 1;
        assert(entries_view(r@) =~= normalized_batch(
            entries_view(entries@),
            d@,
            now,
            id_prefix@,
        ).subrange(0, i as int));
    }
    assert(normalized_batch(entries_view(entries@), d@, now, id_prefix@).subrange(
        0,
        i as int,
    ) =~= normalized_batch(entries_view(entries@), d@, now, id_prefix@));
    r
}

/// A sort key: a text, a time as seconds and nanoseconds, and two more
/// texts, ordered lexicographically in that order.
pub struct KeyModel {
    pub head: Text,
    pub seconds: int,
    pub nanos: int,
    pub id: Text,
    pub tail: Text,
}

/// The ordering key of an entry: log name, timestamp, insert id.
pub open spec fn key_of(e: EntryModel) -> KeyModel {
    let t = ts_or_epoch(e.timestamp);
    KeyModel {
        head: e.log_name,
        seconds: t.seconds as int,
        nanos: t.nanos as int,
        id: e.insert_id,
        tail: Seq::empty(),
    }
}

/// Strict order of keys: lexicographic over the components.
pub open spec fn key_lt(a: KeyModel, b: KeyModel) -> bool {
    ||| text_lt(a.head, b.head)
    ||| (a.head == b.head && a.seconds < b.seconds)
    ||| (a.head == b.head && a.seconds == b.seconds && a.nanos < b.nanos)
    ||| (a.head == b.head && a.seconds == b.seconds && a.nanos == b.nanos && text_lt(a.id, b.id))
    ||| (a.head == b.head && a.seconds == b.seconds && a.nanos == b.nanos && a.id == b.id
        && text_lt(a.tail, b.tail))
}

pub proof fn lemma_key_lt_irreflexive(a: KeyModel)
    ensures
        !key_lt(a, a),
{
    lemma_text_lt_irreflexive(a.head);
    lemma_text_lt_irreflexive(a.id);
    lemma_text_lt_irreflexive(a.tail);
}

pub proof fn lemma_key_lt_transitive(a: KeyModel, b: KeyModel, c: KeyModel)
    requires
        key_lt(a, b),
        key_lt(b, c),
    ensures
        key_lt(a, c),
{
    lemma_text_lt_irreflexive(a.head);
    lemma_text_lt_irreflexive(b.head);
    lemma_text_lt_irreflexive(a.id);
    lemma_text_lt_irreflexive(b.id);
    if text_lt(a.head, b.head) && text_lt(b.head, c.head) {
        lemma_text_lt_transitive(a.head, b.head, c.head);
    }
    if text_lt(a.id, b.id) && text_lt(b.id, c.id) {
        lemma_text_lt_transitive(a.id, b.id, c.id);
    }
    if text_lt(a.tail, b.tail) && text_lt(b.tail, c.tail) {
        lemma_text_lt_transitive(a.tail, b.tail, c.tail);
    }
}

/// Two keys neither of which is below the other are equal.
pub proof fn lemma_key_total(a: KeyModel, b: KeyModel)
    requires
        !key_lt(a, b),
        !key_lt(b, a),
    ensures
        a == b,
{
    if a.head != b.head {
        lemma_text_lt_total(a.head, b.head);
    }
    if a.id != b.id {
        lemma_text_lt_total(a.id, b.id);
    }
    if a.tail != b.tail {
        lemma_text_lt_total(a.tail, b.tail);
    }
}

/// If `c` is below `a`, then any `b` is below `a` or above `c`.
pub proof fn lemma_key_lt_split(a: KeyModel, b: KeyModel, c: KeyModel)
    requires
        key_lt(c, a),
    ensures
        key_lt(c, b) || key_lt(b, a),
{
    if !key_lt(c, b) {
        if key_lt(b, c) {
            lemma_key_lt_transitive(b, c, a);
        } else {
            lemma_key_total(b, c);
        }
    }
}

/// `order` lists every index below `n` exactly once.
pub open spec fn is_permutation(order: Seq<usize>, n: nat) -> bool {
    &&& order.len() == n
    &&& forall|i: int| 0 <= i < order.len() ==> #[trigger] order[i] < n
    &&& forall|i: int, j: int|
        0 <= i < j < order.len() ==> #[trigger] order[i] != #[trigger] order[j]
    &&& forall|v: int| 0 <= v < n ==> #[trigger] lists(order, v)
}

pub open spec fn lists(order: Seq<usize>, v: int) -> bool {
    exists|i: int| 0 <= i < order.len() && order[i] == v
}

/// `order` visits the keys in ascending order, and keeps equal keys in
/// their input order.
pub open spec fn stably_sorted(order: Seq<usize>, ks: Seq<KeyModel>) -> bool {
    &&& forall|i: int, j: int|
        0 <= i < j < order.len() ==> !key_lt(ks[#[trigger] order[j] as int], ks[#[trigger] order[i] as int])
    &&& forall|i: int, j: int|
        0 <= i < j < order.len() && !key_lt(ks[order[i] as int], ks[order[j] as int])
            ==> #[trigger] order[i] < #[trigger] order[j]
}

pub open spec fn keys_of(es: Seq<EntryModel>) -> Seq<KeyModel> {
    Seq::new(es.len(), |i: int| key_of(es[i]))
}

/// The executable form of a key.
pub struct Key {
    pub head: Vec<char>,
    pub seconds: i128,
    pub nanos: i128,
    pub id: Vec<char>,
    pub tail: Vec<char>,
}

pub open spec fn key_view(k: Key) -> KeyModel {
    KeyModel {
        head: k.head@,
        seconds: k.seconds as int,
        nanos: k.nanos as int,
        id: k.id@,
        tail: k.tail@,
    }
}

pub open spec fn keys_view(ks: Seq<Key>) -> Seq<KeyModel> {
    Seq::new(ks.len(), |i: int| key_view(ks[i]))
}

pub fn key_of_entry(e: &LogEntry) -> (r: Key)
    ensures
        key_view(r) == key_of(e@),
{
    let t = match e.timestamp {
        Some(t) => t,
        None => Timestamp { seconds: 0, nanos: 0 },
    };
    let r = Key {
        head: to_chars(e.log_name.as_str()),
        seconds: t.seconds as i128,
        nanos: t.nanos as i128,
        id: to_chars(e.insert_id.as_str()),
        tail: Vec::new(),
    };
    assert(r.tail@ =~= Seq::<char>::empty());
    r
}

/// Whether key `a` is strictly below key `b`.
pub fn key_less(a: &Key, b: &Key) -> (r: bool)
    ensures
        r == key_lt(key_view(*a), key_view(*b)),
{
    let c = compare_text(&a.head, &b.head);
    if c != 0 {
        return c == -1;
    }
    if a.seconds != b.seconds {
        return a.seconds < b.seconds;
    }
    if a.nanos != b.nanos {
        return a.nanos < b.nanos;
    }
    let c = compare_text(&a.id, &b.id);
    if c != 0 {
        return c == -1;
    }
    compare_text(&a.tail, &b.tail) == -1
}

/// A stable sort of the entries by key, as a list of their indices.
pub fn sort_order(es: &Vec<LogEntry>) -> (order: Vec<usize>)
    ensures
        is_permutation(order@, es@.len()),
        stably_sorted(order@, keys_of(entries_view(es@))),
{
    let ghost ks = keys_of(entries_view(es@));
    let mut keys: Vec<Key> = Vec::new();
    let mut i: usize = 0;
    while i < es.len()
        invariant
            i <= es@.len(),
            ks == keys_of(entries_view(es@)),
            keys@.len() == i,
            forall|j: int| 0 <= j < i ==> key_view(#[trigger] keys@[j]) == ks[j],
        decreases es@.len() - i,
    {
        keys.push(key_of_entry(&es[i]));
        i = i + 1;
    }
    assert(keys_view(keys@) =~= ks);
    sort_keys(&keys)
}

/// A stable sort of keys, as a list of their indices.
pub fn sort_keys(keys: &Vec<Key>) -> (order: Vec<usize>)
    ensures
        is_permutation(order@, keys@.len()),
        stably_sorted(order@, keys_view(keys@)),
{
    let ghost ks = keys_view(keys@);
    let n = keys.len();
    let mut order: Vec<usize> = Vec::new();
    let mut k: usize = 0;
    while k < n
        invariant
            n == keys@.len(),
            ks.len() == n,
            keys@.len() == n,
            forall|j: int| 0 <= j < n ==> key_view(#[trigger] keys@[j]) == ks[j],
            k <= n,
            is_permutation(order@, k as nat),
            stably_sorted(order@, ks),
        decreases n - k,
    {
        let mut p: usize = k;
        while p > 0 && key_less(&keys[k], &keys[order[p - 1]])
            invariant
                0 <= p <= k < n,
                order@.len() == k,
                keys@.len() == n,
                forall|j: int| 0 <= j < n ==> key_view(#[trigger] keys@[j]) == ks[j],
                is_permutation(order@, k as nat),
                forall|q: int| p <= q < k ==> key_lt(ks[k as int], ks[#[trigger] order@[q] as int]),
            decreases p,
        {
            p = p - 1;
        }
        let ghost old_order = order@;
        proof {
            if p > 0 {
                assert(!key_lt(ks[k as int], ks[old_order[p - 1] as int]));
            }
        }
        order.insert(p, k);
        proof {
            let new = order@;
            assert(new.len() == k + 1);
            assert forall|i: int| 0 <= i < new.len() implies #[trigger] new[i] < k + 1 by {
                if i < p {
                    assert(new[i] == old_order[i]);
                } else if i > p {
                    assert(new[i] == old_order[i - 1]);
                }
            }
            assert forall|v: int| 0 <= v < k + 1 implies #[trigger] lists(new, v) by {
                if v == k {
                    assert(new[p as int] == k);
                } else {
                    assert(lists(old_order, v));
                    let i = choose|i: int| 0 <= i < old_order.len() && old_order[i] == v;
                    if i < p {
                        assert(new[i] == v);
                    } else {
                        assert(new[i + 1] == v);
                    }
                }
            }
            assert forall|i: int, j: int| 0 <= i < j < new.len() implies #[trigger] new[i]
                != #[trigger] new[j] by {
                if i != p && j != p {
                    let oi = if i < p { i } else { i - 1 };
                    let oj = if j < p { j } else { j - 1 };
                    assert(new[i] == old_order[oi] && new[j] == old_order[oj]);
                } else if i == p {
                    assert(new[j] == old_order[j - 1]);
                } else {
                    assert(new[i] == old_order[i]);
                }
            }
            assert forall|i: int, j: int| 0 <= i < j < new.len() implies !key_lt(
                ks[#[trigger] new[j] as int],
                ks[#[trigger] new[i] as int],
            ) by {
                if i != p && j != p {
                    let oi = if i < p { i } else { i - 1 };
                    let oj = if j < p { j } else { j - 1 };
                    assert(new[i] == old_order[oi] && new[j] == old_order[oj]);
                    assert(oi < oj);
                } else if i == p {
                    assert(new[j] == old_order[j - 1]);
                    assert(key_lt(ks[k as int], ks[old_order[j - 1] as int]));
                    lemma_key_lt_asymmetric(ks[k as int], ks[old_order[j - 1] as int]);
                } else {
                    assert(new[i] == old_order[i]);
                    assert(new[j] == k);
                    let a = ks[old_order[i] as int];
                    let b = ks[old_order[p - 1] as int];
                    let c = ks[k as int];
                    if i < p - 1 {
                        assert(!key_lt(b, a));
                    }
                    if key_lt(c, a) {
                        lemma_key_lt_split(a, b, c);
                    }
                }
            }
            assert forall|i: int, j: int|
                0 <= i < j < new.len() && !key_lt(ks[new[i] as int], ks[new[j] as int])
                implies #[trigger] new[i] < #[trigger] new[j] by {
                if i != p && j != p {
                    let oi = if i < p { i } else { i - 1 };
                    let oj = if j < p { j } else { j - 1 };
                    assert(new[i] == old_order[oi] && new[j] == old_order[oj]);
                    assert(oi < oj);
                } else if i == p {
                    assert(new[j] == old_order[j - 1]);
                } else {
                    assert(new[i] == old_order[i]);
                }
            }
        }
        k = k + 1;
    }
    order
}

pub proof fn lemma_key_lt_asymmetric(a: KeyModel, b: KeyModel)
    requires
        key_lt(a, b),
    ensures
        !key_lt(b, a),
{
    if key_lt(b, a) {
        lemma_key_lt_transitive(a, b, a);
        lemma_key_lt_irreflexive(a);
    }
}

/// A normalized batch in key order, with the input index of each entry.
#[derive(Debug)]
pub struct SequencedBatch {
    pub entries: Vec<LogEntry>,
    pub order: Vec<usize>,
}

/// The entries of `es` in the order that `order` lists.
pub open spec fn arranged(order: Seq<usize>, es: Seq<EntryModel>) -> Seq<EntryModel> {
    Seq::new(order.len(), |i: int| es[order[i] as int])
}

/// Normalizes a batch and sorts it stably by key.
pub fn sequence_batch(
    entries: &Vec<LogEntry>,
    d: &WriteDefaults,
    now: Timestamp,
    id_prefix: &str,
) -> (r: SequencedBatch)
    ensures
        is_permutation(r.order@, entries@.len()),
        stably_sorted(
            r.order@,
            keys_of(normalized_batch(entries_view(entries@), d@, now, id_prefix@)),
        ),
        entries_view(r.entries@) == arranged(
            r.order@,
            normalized_batch(entries_view(entries@), d@, now, id_prefix@),
        ),
{
    let norm = normalize_batch(entries, d, now, id_prefix);
    let order = sort_order(&norm);
    let ghost nb = normalized_batch(entries_view(entries@), d@, now, id_prefix@);
    let mut out: Vec<LogEntry> = Vec::new();
    let mut i: usize = 0;
    while i < order.len()
        invariant
            i <= order@.len(),
            is_permutation(order@, norm@.len()),
            entries_view(norm@) == nb,
            entries_view(out@) == arranged(order@, nb).subrange(0, i as int),
        decreases order@.len() - i,
    {
        let e = norm[order[i]].duplicate();
        assert(e@ == arranged(order@, nb)[i as int]);
        let ghost before = entries_view(out@);
        let ghost ev = e@;
        out.push(e);
        assert(entries_view(out@) =~= before.push(ev));
        i = i + 1;
        assert(entries_view(out@) =~= arranged(order@, nb).subrange(0, i as int));
    }
    assert(arranged(order@, nb).subrange(0, i as int) =~= arranged(order@, nb));
    SequencedBatch { entries: out, order }
}

/// In a stably sorted order, an entry whose key is lower, or equal with a
/// lower index, comes first.
pub proof fn lemma_sorted_positions(order: Seq<usize>, ks: Seq<KeyModel>, i: int, j: int)
    requires
        is_permutation(order, ks.len()),
        stably_sorted(order, ks),
        0 <= i < order.len(),
        0 <= j < order.len(),
        key_lt(ks[order[i] as int], ks[order[j] as int]) || (ks[order[i] as int] == ks[order[j] as int]
            && order[i] < order[j]),
    ensures
        i < j,
{
    if j < i {
        assert(!key_lt(ks[order[i] as int], ks[order[j] as int]));
        if ks[order[i] as int] == ks[order[j] as int] {
            lemma_key_lt_irreflexive(ks[order[i] as int]);
            assert(order[j] < order[i]);
        }
    } else if i == j {
        lemma_key_lt_irreflexive(ks[order[i] as int]);
    }
}

/// Two entries of one batch that end up with the same log name and
/// timestamp, and whose insert ids were both generated, keep the order they
/// had in the input: the earlier one has the lower key, and it comes first
/// in any stably sorted order of the batch.
pub proof fn lemma_generated_ids_keep_input_order(
    batch: Seq<EntryModel>,
    d: DefaultsModel,
    now: Timestamp,
    prefix: Text,
    order: Seq<usize>,
    i: int,
    j: int,
)
    requires
        batch.len() <= usize::MAX,
        is_permutation(order, batch.len()),
        stably_sorted(order, keys_of(normalized_batch(batch, d, now, prefix))),
        0 <= i < order.len(),
        0 <= j < order.len(),
        order[i] < order[j],
        batch[order[i] as int].insert_id.len() == 0,
        batch[order[j] as int].insert_id.len() == 0,
        normalized_batch(batch, d, now, prefix)[order[i] as int].log_name == normalized_batch(
            batch,
            d,
            now,
            prefix,
        )[order[j] as int].log_name,
        normalized_batch(batch, d, now, prefix)[order[i] as int].timestamp == normalized_batch(
            batch,
            d,
            now,
            prefix,
        )[order[j] as int].timestamp,
    ensures
        key_lt(
            key_of(normalized_batch(batch, d, now, prefix)[order[i] as int]),
            key_of(normalized_batch(batch, d, now, prefix)[order[j] as int]),
        ),
        i < j,
{
    let nb = normalized_batch(batch, d, now, prefix);
    let (a, b) = (order[i] as int, order[j] as int);
    assert(pow10(20) == 100_000_000_000_000_000_000) by {
        reveal_with_fuel(pow10, 21);
    }
    lemma_decimal_order(a as nat, b as nat, ID_DIGITS as nat);
    lemma_text_lt_common_prefix(
        prefix,
        decimal(a as nat, ID_DIGITS as nat),
        decimal(b as nat, ID_DIGITS as nat),
    );
    assert(nb[a].insert_id == generated_id(prefix, a as nat));
    assert(nb[b].insert_id == generated_id(prefix, b as nat));
    let ks = keys_of(nb);
    assert(ks[a] == key_of(nb[a]));
    assert(ks[b] == key_of(nb[b]));
    lemma_sorted_positions(order, ks, i, j);
}

proof fn lemma_merge_keeps_own(own: Seq<(Text, Text)>, defs: Seq<(Text, Text)>)
    requires
        forall|i: int| 0 <= i < defs.len() ==> label_lookup(own, (#[trigger] defs[i]).0) is Some,
    ensures
        merge_labels(own, defs) == own,
    decreases defs.len(),
{
    if defs.len() > 0 {
        assert(label_lookup(own, defs[defs.len() - 1].0) is Some);
        lemma_merge_keeps_own(own, defs.drop_last());
    }
}

/// An entry with its own log name, resource, timestamp and insert id, in a
/// batch whose default labels it already has, keeps exactly its own field
/// values through normalization; only the receive time is stamped.
pub proof fn lemma_explicit_entry_unchanged(e: EntryModel, d: DefaultsModel, now: Timestamp, id: Text)
    requires
        e.log_name.len() > 0,
        e.resource is Some,
        e.timestamp is Some,
        e.insert_id.len() > 0,
        forall|i: int| 0 <= i < d.labels.len() ==> label_lookup(e.labels, (#[trigger] d.labels[i]).0) is Some,
    ensures
        normalized(e, d, now, id) == (EntryModel { receive_timestamp: Some(now), ..e }),
{
    lemma_merge_keeps_own(e.labels, d.labels);
}

/// A stable sort is unique: two orders that both list every index once,
/// ascending by key and keeping equal keys in index order, are the same.
pub proof fn lemma_stable_order_unique(o1: Seq<usize>, o2: Seq<usize>, ks: Seq<KeyModel>)
    requires
        is_permutation(o1, ks.len()),
        is_permutation(o2, ks.len()),
        stably_sorted(o1, ks),
        stably_sorted(o2, ks),
    ensures
        o1 == o2,
{
    assert forall|i: int| 0 <= i < o1.len() implies o1[i] == o2[i] by {
        lemma_stable_prefix_equal(o1, o2, ks, i);
    }
    assert(o1 =~= o2);
}

proof fn lemma_stable_prefix_equal(o1: Seq<usize>, o2: Seq<usize>, ks: Seq<KeyModel>, i: int)
    requires
        is_permutation(o1, ks.len()),
        is_permutation(o2, ks.len()),
        stably_sorted(o1, ks),
        stably_sorted(o2, ks),
        0 <= i < o1.len(),
    ensures
        o1[i] == o2[i],
    decreases i,
{
    assert forall|j: int| 0 <= j < i implies o1[j] == o2[j] by {
        lemma_stable_prefix_equal(o1, o2, ks, j);
    }
    let (a, b) = (o1[i], o2[i]);
    if a != b {
        assert(lists(o1, b as int));
        let j = choose|j: int| 0 <= j < o1.len() && o1[j] == b;
        assert(lists(o2, a as int));
        let k = choose|k: int| 0 <= k < o2.len() && o2[k] == a;
        if j < i {
            assert(o2[j] == b);
        }
        if k < i {
            assert(o1[k] == a);
        }
        assert(i < j && i < k);
        assert(!key_lt(ks[o1[j] as int], ks[o1[i] as int]));
        assert(!key_lt(ks[o2[k] as int], ks[o2[i] as int]));
        assert(o1[i] < o1[j]);
        assert(o2[i] < o2[k]);
    }
}

} // verus!
