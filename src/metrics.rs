//! Logs-based metrics: counters and distributions keyed by extracted labels.
use vstd::prelude::*;
use crate::entry::{EntryModel, Label, LogEntry, Text, labels_view};
use crate::filter::{
    FieldRef, Filter, Found, Value, resolve, resolve_field, selects,
};
use crate::grammar::{ExprModel, expr_model, filter_syntax};
use crate::extract::{
    Extractor, extract_sample, extract_text, extracted, extracted_sample, extractor_for,
    extractor_refused, parse_extractor,
};
use crate::parse::{FilterError, compile};
use crate::routing::sat_inc;
use crate::text::{int_literal, parse_int, to_chars};

verus! {

/// A metric as configured. An empty `value_extractor` makes a counter;
/// otherwise it is `EXTRACT(<field>)` or `REGEXP_EXTRACT(<field>, "<pattern>")`
/// and the metric is a distribution over `bucket_bounds`. Each label
/// extractor maps a label key to an extractor of the same forms.
#[derive(Debug)]
pub struct LogMetric {
    pub name: String,
    pub description: String,
    pub filter: String,
    pub disabled: bool,
    pub value_extractor: String,
    pub label_extractors: Vec<Label>,
    pub bucket_bounds: Vec<i64>,
}

#[derive(Clone, Copy, Debug, PartialEq, Eq, Structural)]
pub enum MetricConfigError {
    InvalidFilter(FilterError),
    /// The value extractor, or the label extractor at this index, is not of
    /// either form, or its pattern does not have exactly one capture group.
    InvalidValueExtractor,
    InvalidLabelExtractor(usize),
    /// More bucket bounds than buckets can be counted for.
    TooManyBuckets,
}

/// A metric with its filter and extractors compiled.
#[derive(Debug)]
pub struct CompiledMetric {
    pub disabled: bool,
    pub filter: Filter,
    pub value: Option<Extractor>,
    pub labels: Vec<Extractor>,
    pub bounds: Vec<i64>,
}

impl CompiledMetric {
    pub open spec fn wf(&self) -> bool {
        self.filter.wf() && self.bounds@.len() < usize::MAX
    }
}

/// `m` is what the configured metric `cfg` compiles to.
pub open spec fn metric_compiled(cfg: LogMetric, m: CompiledMetric) -> bool {
    &&& m.wf()
    &&& filter_syntax(cfg.filter@) == Ok::<ExprModel, FilterError>(expr_model(m.filter.expr))
    &&& m.disabled == cfg.disabled
    &&& m.bounds@ == cfg.bucket_bounds@
    &&& (cfg.value_extractor@.len() == 0 <==> m.value is None)
    &&& (m.value matches Some(x) ==> extractor_for(cfg.value_extractor@, x))
    &&& m.labels@.len() == cfg.label_extractors@.len()
    &&& forall|i: int|
        0 <= i < m.labels@.len() ==> extractor_for(
            #[trigger] labels_view(cfg.label_extractors@)[i].1,
            m.labels@[i],
        )
}

/// `cfg` does not compile, for the reason `e`.
pub open spec fn metric_refused(cfg: LogMetric, e: MetricConfigError) -> bool {
    match e {
        MetricConfigError::InvalidValueExtractor => cfg.value_extractor@.len() > 0
            && extractor_refused(cfg.value_extractor@),
        MetricConfigError::InvalidLabelExtractor(i) => i < cfg.label_extractors@.len()
            && extractor_refused(labels_view(cfg.label_extractors@)[i as int].1),
        MetricConfigError::InvalidFilter(fe) => fe.position <= cfg.filter@.len() && filter_syntax(
            cfg.filter@,
        ) == Err::<ExprModel, FilterError>(fe),
        MetricConfigError::TooManyBuckets => cfg.bucket_bounds@.len() == usize::MAX,
    }
}

impl LogMetric {
    pub fn compile(&self) -> (r: Result<CompiledMetric, MetricConfigError>)
        ensures
            match r {
                Ok(m) => metric_compiled(*self, m),
                Err(e) => metric_refused(*self, e),
            },
    {
        if self.bucket_bounds.len() == usize::MAX {
            return Err(MetricConfigError::TooManyBuckets);
        }
        let filter = match compile(self.filter.as_str()) {
            Ok(f) => f,
            Err(e) => return Err(MetricConfigError::InvalidFilter(e)),
        };
        let value = if self.value_extractor.as_str().unicode_len() == 0 {
            None
        } else {
            match parse_extractor(self.value_extractor.as_str()) {
                Some(f) => Some(f),
                None => return Err(MetricConfigError::InvalidValueExtractor),
            }
        };
        let mut labels: Vec<Extractor> = Vec::new();
        let mut i: usize = 0;
        while i < self.label_extractors.len()
            invariant
                i <= self.label_extractors@.len(),
                labels@.len() == i,
                forall|j: int|
                    0 <= j < i ==> extractor_for(
                        #[trigger] labels_view(self.label_extractors@)[j].1,
                        labels@[j],
                    ),
            decreases self.label_extractors@.len() - i,
        {
            assert(labels_view(self.label_extractors@)[i as int] == self.label_extractors@[i as int]@);
            match parse_extractor(self.label_extractors[i].value.as_str()) {
                Some(f) => labels.push(f),
                None => return Err(MetricConfigError::InvalidLabelExtractor(i)),
            }
            i = i + 1;
        }
        let mut bounds: Vec<i64> = Vec::new();
        let mut k: usize = 0;
        while k < self.bucket_bounds.len()
            invariant
                k <= self.bucket_bounds@.len(),
                bounds@ == self.bucket_bounds@.subrange(0, k as int),
            decreases self.bucket_bounds@.len() - k,
        {
            bounds.push(self.bucket_bounds[k]);
            k = k + 1;
            assert(bounds@ =~= self.bucket_bounds@.subrange(0, k as int));
        }
        assert(bounds@ =~= self.bucket_bounds@);
        Ok(CompiledMetric { disabled: self.disabled, filter, value, labels, bounds })
    }
}

/// The number a value extractor yields; what does not convert gives 0.
pub open spec fn sample_value(v: Value) -> int {
    match v {
        Value::Int(n) => n,
        Value::Level(n) => n,
        Value::Str(s) => match int_literal(s) {
            Some(n) => n,
            None => 0,
        },
        _ => 0,
    }
}

/// The index of the bucket that `v` falls in: how many bounds are at most `v`.
pub open spec fn bucket_index(bounds: Seq<i64>, v: int) -> nat
    decreases bounds.len(),
{
    if bounds.len() == 0 {
        0
    } else {
        bucket_index(bounds.drop_last(), v) + if bounds.last() <= v {
            1nat
        } else {
            0nat
        }
    }
}

/// One time series of a metric: its label values, how many entries it
/// counted, and per bucket how many samples fell there.
#[derive(Debug)]
pub struct MetricCell {
    pub labels: Vec<String>,
    pub count: u64,
    pub buckets: Vec<u64>,
}

pub struct CellModel {
    pub labels: Seq<Text>,
    pub count: nat,
    pub buckets: Seq<nat>,
}

pub open spec fn texts_view(v: Seq<String>) -> Seq<Text> {
    v.map_values(|s: String| s@)
}

pub open spec fn counts_view(v: Seq<u64>) -> Seq<nat> {
    v.map_values(|c: u64| c as nat)
}

impl View for MetricCell {
    type V = CellModel;

    open spec fn view(&self) -> CellModel {
        CellModel {
            labels: texts_view(self.labels@),
            count: self.count as nat,
            buckets: counts_view(self.buckets@),
        }
    }
}

pub open spec fn cells_view(v: Seq<MetricCell>) -> Seq<CellModel> {
    v.map_values(|c: MetricCell| c@)
}

/// The first cell with the given label values.
pub open spec fn find_cell(cells: Seq<CellModel>, labels: Seq<Text>) -> Option<int>
    decreases cells.len(),
{
    if cells.len() == 0 {
        None
    } else {
        match find_cell(cells.drop_last(), labels) {
            Some(i) => Some(i),
            None => if cells.last().labels == labels {
                Some(cells.len() - 1)
            } else {
                None
            },
        }
    }
}

pub open spec fn bump(c: CellModel, bucket: Option<nat>) -> CellModel {
    CellModel {
        labels: c.labels,
        count: sat_inc(c.count),
        buckets: match bucket {
            Some(b) => if b < c.buckets.len() {
                c.buckets.update(b as int, sat_inc(c.buckets[b as int]))
            } else {
                c.buckets
            },
            None => c.buckets,
        },
    }
}

/// The cells after counting one entry with these label values, and for a
/// distribution the bucket its sample falls in.
pub open spec fn record(cells: Seq<CellModel>, labels: Seq<Text>, bucket: Option<nat>, n_buckets: nat) -> Seq<CellModel> {
    match find_cell(cells, labels) {
        Some(i) => cells.update(i, bump(cells[i], bucket)),
        None => cells.push(
            bump(CellModel { labels, count: 0, buckets: Seq::new(n_buckets, |i: int| 0nat) }, bucket),
        ),
    }
}

pub open spec fn label_values(xs: Seq<Extractor>, e: EntryModel) -> Seq<Text> {
    Seq::new(xs.len(), |i: int| extracted(xs[i], e))
}

pub open spec fn observed(m: CompiledMetric, cells: Seq<CellModel>, e: EntryModel) -> Seq<CellModel> {
    if !m.disabled && selects(m.filter.expr, e) {
        record(
            cells,
            label_values(m.labels@, e),
            match m.value {
                Some(x) => Some(bucket_index(m.bounds@, extracted_sample(x, e))),
                None => None,
            },
            if m.value is Some {
                m.bounds@.len() + 1
            } else {
                0
            },
        )
    } else {
        cells
    }
}

/// The cells after observing each entry of `es` in turn.
pub open spec fn observe_all(m: CompiledMetric, cells: Seq<CellModel>, es: Seq<EntryModel>) -> Seq<CellModel>
    decreases es.len(),
{
    if es.len() == 0 {
        cells
    } else {
        observed(m, observe_all(m, cells, es.drop_last()), es.last())
    }
}

/// The state of one metric.
#[derive(Debug)]
pub struct MetricState {
    pub cells: Vec<MetricCell>,
}

fn texts_equal(a: &Vec<String>, b: &Vec<String>) -> (r: bool)
    ensures
        r == (texts_view(a@) == texts_view(b@)),
{
    if a.len() != b.len() {
        return false;
    }
    let mut i: usize = 0;
    while i < a.len()
        invariant
            a@.len() == b@.len(),
            i <= a@.len(),
            texts_view(a@).subrange(0, i as int) == texts_view(b@).subrange(0, i as int),
        decreases a@.len() - i,
    {
        if !(a[i] == b[i]) {
            assert(texts_view(a@)[i as int] != texts_view(b@)[i as int]);
            return false;
        }
        i = i + 1;
        assert(texts_view(a@).subrange(0, i as int) =~= texts_view(b@).subrange(0, i as int));
    }
    assert(texts_view(a@) =~= texts_view(a@).subrange(0, i as int));
    assert(texts_view(b@) =~= texts_view(b@).subrange(0, i as int));
    true
}

pub fn extract_value(f: &FieldRef, e: &LogEntry) -> (r: i64)
    ensures
        r as int == sample_value(resolve(*f, e@)),
{
    match resolve_field(f, e) {
        Found::Int(n) => n,
        Found::Level(n) => n,
        Found::Str(s) => {
            let cs = to_chars(s.as_str());
            match parse_int(&cs) {
                Some(n) => n,
                None => 0,
            }
        },
        _ => 0,
    }
}

fn find_bucket(bounds: &Vec<i64>, v: i64) -> (r: usize)
    ensures
        r as nat == bucket_index(bounds@, v as int),
        r <= bounds@.len(),
{
    let mut r: usize = 0;
    let mut i: usize = 0;
    while i < bounds.len()
        invariant
            i <= bounds@.len(),
            r <= i,
            r as nat == bucket_index(bounds@.subrange(0, i as int), v as int),
        decreases bounds@.len() - i,
    {
        assert(bounds@.subrange(0, i as int + 1).drop_last() =~= bounds@.subrange(0, i as int));
        if bounds[i] <= v {
            r = r + 1;
        }
        i = i + 1;
    }
    assert(bounds@.subrange(0, i as int) =~= bounds@);
    r
}

impl MetricCell {
    fn bump(&mut self, bucket: Option<usize>)
        ensures
            final(self)@ == bump(old(self)@, match bucket {
                Some(b) => Some(b as nat),
                None => None,
            }),
    {
        if self.count < u64::MAX {
            self.count = self.count + 1;
        }
        match bucket {
            Some(b) => {
                if b < self.buckets.len() {
                    let c = self.buckets[b];
                    let c2 = if c < u64::MAX {
                        c + 1
                    } else {
                        c
                    };
                    self.buckets.set(b, c2);
                    assert(counts_view(self.buckets@) =~= counts_view(old(self).buckets@).update(
                        b as int,
                        sat_inc(c as nat),
                    ));
                }
            },
            None => {},
        }
    }
}

impl MetricState {
    pub fn new() -> (r: MetricState)
        ensures
            cells_view(r.cells@).len() == 0,
    {
        MetricState { cells: Vec::new() }
    }

    fn find(&self, labels: &Vec<String>) -> (r: Option<usize>)
        ensures
            match r {
                Some(i) => i < self.cells@.len() && find_cell(cells_view(self.cells@), texts_view(labels@))
                    == Some(i as int),
                None => find_cell(cells_view(self.cells@), texts_view(labels@)) is None,
            },
    {
        let mut i: usize = 0;
        while i < self.cells.len()
            invariant
                i <= self.cells@.len(),
                find_cell(cells_view(self.cells@).subrange(0, i as int), texts_view(labels@)) is None,
            decreases self.cells@.len() - i,
        {
            let ghost pre = cells_view(self.cells@).subrange(0, i as int + 1);
            assert(pre.drop_last() =~= cells_view(self.cells@).subrange(0, i as int));
            assert(pre.last() == self.cells@[i as int]@);
            if texts_equal(&self.cells[i].labels, labels) {
                proof {
                    lemma_find_cell_extend(cells_view(self.cells@), texts_view(labels@), i as int);
                }
                return Some(i);
            }
            i = i + 1;
        }
        assert(cells_view(self.cells@).subrange(0, i as int) =~= cells_view(self.cells@));
        None
    }

    /// Counts one entry (see `observed`).
    pub fn observe(&mut self, m: &CompiledMetric, e: &LogEntry)
        requires
            m.wf(),
        ensures
            cells_view(final(self).cells@) == observed(*m, cells_view(old(self).cells@), e@),
    {
        if m.disabled || !m.filter.matches(e) {
            return;
        }
        let mut labels: Vec<String> = Vec::new();
        let mut i: usize = 0;
        while i < m.labels.len()
            invariant
                i <= m.labels@.len(),
                texts_view(labels@) == label_values(m.labels@, e@).subrange(0, i as int),
            decreases m.labels@.len() - i,
        {
            let l = extract_text(&m.labels[i], e);
            let ghost before = texts_view(labels@);
            assert(label_values(m.labels@, e@)[i as int] == l@);
            labels.push(l);
            assert(texts_view(labels@) =~= before.push(l@));
            i = i + 1;
            assert(texts_view(labels@) =~= label_values(m.labels@, e@).subrange(0, i as int));
        }
        assert(texts_view(labels@) =~= label_values(m.labels@, e@));
        let (bucket, n_buckets) = match &m.value {
            Some(x) => {
                let v = extract_sample(x, e);
                (Some(find_bucket(&m.bounds, v)), m.bounds.len() + 1)
            },
            None => (None, 0),
        };
        match self.find(&labels) {
            Some(i) => {
                let mut cell = MetricCell { labels: Vec::new(), count: 0, buckets: Vec::new() };
                self.cells.set_and_swap(i, &mut cell);
                cell.bump(bucket);
                let ghost before = self.cells@;
                self.cells.set(i, cell);
                assert(cells_view(self.cells@) =~= cells_view(old(self).cells@).update(
                    i as int,
                    bump(cells_view(old(self).cells@)[i as int], match bucket {
                        Some(b) => Some(b as nat),
                        None => None,
                    }),
                ));
            },
            None => {
                let mut buckets: Vec<u64> = Vec::new();
                let mut k: usize = 0;
                while k < n_buckets
                    invariant
                        k <= n_buckets,
                        buckets@.len() == k,
                        forall|j: int| 0 <= j < k ==> buckets@[j] == 0,
                    decreases n_buckets - k,
                {
                    buckets.push(0);
                    k = k + 1;
                }
                let ghost lv = texts_view(labels@);
                let mut cell = MetricCell { labels, count: 0, buckets };
                assert(cell@ == CellModel {
                    labels: lv,
                    count: 0,
                    buckets: Seq::new(n_buckets as nat, |i: int| 0nat),
                }) by {
                    assert(counts_view(cell.buckets@) =~= Seq::new(n_buckets as nat, |i: int| 0nat));
                }
                cell.bump(bucket);
                let ghost before = cells_view(self.cells@);
                let ghost cv = cell@;
                self.cells.push(cell);
                assert(cells_view(self.cells@) =~= before.push(cv));
            },
        }
    }
}

proof fn lemma_find_cell_extend(cells: Seq<CellModel>, labels: Seq<Text>, i: int)
    requires
        0 <= i < cells.len(),
        find_cell(cells.subrange(0, i), labels) is None,
        cells[i].labels == labels,
    ensures
        find_cell(cells, labels) == Some(i),
    decreases cells.len() - i,
{
    let pre = cells.subrange(0, i + 1);
    assert(pre.drop_last() =~= cells.subrange(0, i));
    if i + 1 < cells.len() {
        lemma_find_cell_prefix(cells, labels, i + 1);
    } else {
        assert(pre =~= cells);
    }
}

/// Once a prefix holds a match, the whole sequence finds the same one.
proof fn lemma_find_cell_prefix(cells: Seq<CellModel>, labels: Seq<Text>, k: int)
    requires
        0 <= k <= cells.len(),
        find_cell(cells.subrange(0, k), labels) is Some,
    ensures
        find_cell(cells, labels) == find_cell(cells.subrange(0, k), labels),
    decreases cells.len() - k,
{
    if k < cells.len() {
        let pre = cells.subrange(0, k + 1);
        assert(pre.drop_last() =~= cells.subrange(0, k));
        lemma_find_cell_prefix(cells, labels, k + 1);
    } else {
        assert(cells.subrange(0, k) =~= cells);
    }
}

} // verus!
