//! The write path: validate, normalize, sequence, exclude, store, route to
//! sinks and update metrics.
use vstd::prelude::*;
use crate::entry::{
    EntryModel, Label, LogEntry, MonitoredResource, Text, Timestamp, entries_view, label_lookup,
    labels_view,
    payload_valid, ts_lt,
};
use crate::filter::ts_or_epoch;
use crate::grammar::{ExprModel, filter_syntax};
use crate::metrics::{
    CellModel, CompiledMetric, LogMetric, MetricConfigError, MetricState, cells_view,
    metric_compiled, metric_refused, observe_all,
};
use crate::parse::FilterError;
use crate::routing::{
    CompiledExclusion, CompiledSink, LogExclusion, LogSink, QueueModel, SinkQueue,
    all_exclusions_wf, exclusion_compiled, sink_compiled, excluded, is_excluded, route_all, sink_accepts,
};
use crate::parse::slice_chars;
use crate::scope::{
    Scope, ScopeTree, find_logs, log_name_valid, owner_of, scope_named, scope_of_log, valid_log_name,
};
use crate::text::to_chars;
use crate::sequencer::{
    DefaultsModel, WriteDefaults, arranged, key_lt, key_of, lemma_key_total, lemma_sorted_positions,
    lists, generated_id, lemma_explicit_entry_unchanged, is_permutation, keys_of, normalize_batch,
    normalized_batch, sort_order, stably_sorted,
};

verus! {

/// Why an entry of a write was refused.
#[derive(Clone, Copy, Debug, PartialEq, Eq, Structural)]
pub enum EntryFault {
    /// Neither the entry nor the request names a log.
    MissingLogName,
    /// The log name is not `<owner>/logs/<LOG_ID>` with a LOG_ID of 1 to
    /// 511 allowed characters (see `log_name_valid`).
    InvalidLogName,
    /// No known scope owns the log.
    UnknownResource,
    /// Neither the entry nor the request names a monitored resource.
    MissingResource,
    /// Two labels of the entry share a key.
    DuplicateLabelKey,
    /// The payload is malformed (see `payload_valid`).
    InvalidPayload,
}

#[derive(Clone, Copy, Debug, PartialEq, Eq, Structural)]
pub struct EntryError {
    pub index: usize,
    pub fault: EntryFault,
}

/// The entries of a partially successful write that were refused.
#[derive(Debug)]
pub struct WriteLogEntriesPartialErrors {
    pub log_entry_errors: Vec<EntryError>,
}

#[derive(Debug)]
pub struct WriteLogEntriesResponse {
    pub partial_errors: WriteLogEntriesPartialErrors,
}

/// A write was refused as a whole: the first bad entry.
#[derive(Clone, Copy, Debug, PartialEq, Eq, Structural)]
pub enum WriteError {
    InvalidArgument(EntryError),
}

/// A batch of entries to write, with defaults for the fields that entries
/// leave empty. Each entry belongs to the scope that owns its log.
#[derive(Debug)]
pub struct WriteLogEntriesRequest {
    pub log_name: String,
    pub resource: Option<MonitoredResource>,
    pub labels: Vec<Label>,
    pub entries: Vec<LogEntry>,
    pub partial_success: bool,
    pub dry_run: bool,
}

/// A configuration that did not compile: which item, and why.
#[derive(Clone, Copy, Debug, PartialEq, Eq, Structural)]
pub enum ConfigError {
    Exclusion(usize, FilterError),
    Sink(usize, FilterError),
    Metric(usize, MetricConfigError),
}

/// Whether no two labels share a key.
pub open spec fn labels_unique(ls: Seq<(Text, Text)>) -> bool {
    forall|i: int, j: int| 0 <= i < j < ls.len() ==> (#[trigger] ls[i]).0 != (#[trigger] ls[j]).0
}

/// What is wrong with a normalized entry, if anything.
pub open spec fn entry_fault(e: EntryModel, t: Seq<Scope>) -> Option<EntryFault> {
    if e.log_name.len() == 0 {
        Some(EntryFault::MissingLogName)
    } else if !log_name_valid(e.log_name) {
        Some(EntryFault::InvalidLogName)
    } else if scope_named(t, owner_of(e.log_name)) is None {
        Some(EntryFault::UnknownResource)
    } else if e.resource is None {
        Some(EntryFault::MissingResource)
    } else if e.payload matches Some(p) && !payload_valid(p) {
        Some(EntryFault::InvalidPayload)
    } else if !labels_unique(e.labels) {
        Some(EntryFault::DuplicateLabelKey)
    } else {
        None
    }
}

fn unique_keys(ls: &Vec<Label>) -> (r: bool)
    ensures
        r == labels_unique(labels_view(ls@)),
{
    let ghost v = labels_view(ls@);
    let mut i: usize = 0;
    while i < ls.len()
        invariant
            i <= ls@.len(),
            v == labels_view(ls@),
            forall|a: int, b: int| 0 <= a < b < ls@.len() && a < i ==> (#[trigger] v[a]).0 != (#[trigger] v[b]).0,
        decreases ls@.len() - i,
    {
        let mut j: usize = i + 1;
        while j < ls.len()
            invariant
                i < ls@.len(),
                i < j <= ls@.len(),
                v == labels_view(ls@),
                forall|a: int, b: int| 0 <= a < b < ls@.len() && a < i ==> (#[trigger] v[a]).0 != (#[trigger] v[b]).0,
                forall|b: int| i < b < j ==> v[i as int].0 != (#[trigger] v[b]).0,
            decreases ls@.len() - j,
        {
            if ls[i].key == ls[j].key {
                assert(v[i as int].0 == v[j as int].0);
                return false;
            }
            j = j + 1;
        }
        i = i + 1;
    }
    true
}

/// Checks an entry (see `entry_fault`).
pub fn entry_check(tree: &ScopeTree, e: &LogEntry) -> (r: Option<EntryFault>)
    ensures
        r == entry_fault(e@, tree.scopes@),
{
    if e.log_name.as_str().unicode_len() == 0 {
        return Some(EntryFault::MissingLogName);
    }
    let cs = to_chars(e.log_name.as_str());
    if !valid_log_name(&cs) {
        return Some(EntryFault::InvalidLogName);
    }
    let k = find_logs(&cs);
    let owner = slice_chars(&cs, 0, k);
    if tree.find(&owner).is_none() {
        return Some(EntryFault::UnknownResource);
    }
    if e.resource.is_none() {
        return Some(EntryFault::MissingResource);
    }
    let bad_payload = match &e.payload {
        Some(p) => !p.is_valid(),
        None => false,
    };
    if bad_payload {
        return Some(EntryFault::InvalidPayload);
    }
    if !unique_keys(&e.labels) {
        return Some(EntryFault::DuplicateLabelKey);
    }
    None
}

/// The refused entries of a normalized batch, by input index.
pub open spec fn faults(nb: Seq<EntryModel>, t: Seq<Scope>) -> Seq<EntryError>
    decreases nb.len(),
{
    if nb.len() == 0 {
        Seq::empty()
    } else {
        let f = faults(nb.drop_last(), t);
        match entry_fault(nb.last(), t) {
            Some(fault) => f.push(EntryError { index: (nb.len() - 1) as usize, fault }),
            None => f,
        }
    }
}

/// A log was deleted at `at`: entries of it stamped no later stay deleted.
#[derive(Debug)]
pub struct Tombstone {
    pub log_name: String,
    pub at: Timestamp,
}

/// Whether a deletion of the entry's log covers its timestamp.
pub open spec fn deleted_before(tombs: Seq<Tombstone>, e: EntryModel) -> bool {
    exists|i: int|
        0 <= i < tombs.len() && (#[trigger] tombs[i]).log_name@ == e.log_name && !ts_lt(
            tombs[i].at,
            ts_or_epoch(e.timestamp),
        )
}

pub fn is_deleted(tombs: &Vec<Tombstone>, e: &LogEntry) -> (r: bool)
    ensures
        r == deleted_before(tombs@, e@),
{
    let t = match e.timestamp {
        Some(t) => t,
        None => Timestamp { seconds: 0, nanos: 0 },
    };
    let mut i: usize = 0;
    while i < tombs.len()
        invariant
            i <= tombs@.len(),
            t == ts_or_epoch(e@.timestamp),
            forall|j: int|
                0 <= j < i ==> !((#[trigger] tombs@[j]).log_name@ == e@.log_name && !ts_lt(
                    tombs@[j].at,
                    t,
                )),
        decreases tombs@.len() - i,
    {
        if tombs[i].log_name == e.log_name && tombs[i].at.compare(&t) != -1 {
            return true;
        }
        i = i + 1;
    }
    false
}

/// The entries of `es` that are well formed, that no exclusion suppresses
/// and that no deletion of their log covers, in order.
pub open spec fn kept(
    es: Seq<EntryModel>,
    xs: Seq<CompiledExclusion>,
    t: Seq<Scope>,
    tombs: Seq<Tombstone>,
) -> Seq<EntryModel>
    decreases es.len(),
{
    if es.len() == 0 {
        Seq::empty()
    } else {
        let k = kept(es.drop_last(), xs, t, tombs);
        if entry_fault(es.last(), t) is None && !excluded(
            xs,
            t,
            scope_of_log(t, es.last().log_name),
            es.last(),
        ) && !deleted_before(
            tombs,
            es.last(),
        ) {
            k.push(es.last())
        } else {
            k
        }
    }
}

/// The pipeline: its configuration, and the state it owns (stored entries,
/// sink queues, metric cells).
#[derive(Debug)]
pub struct LogPipeline {
    pub scopes: ScopeTree,
    pub exclusions: Vec<CompiledExclusion>,
    pub sinks: Vec<CompiledSink>,
    pub queues: Vec<SinkQueue>,
    pub metrics: Vec<CompiledMetric>,
    pub metric_states: Vec<MetricState>,
    pub store: Vec<LogEntry>,
    pub tombstones: Vec<Tombstone>,
    /// How far back, in seconds, queries see entries.
    pub retention_seconds: i64,
}

pub open spec fn queues_view(v: Seq<SinkQueue>) -> Seq<QueueModel> {
    v.map_values(|q: SinkQueue| q@)
}

pub open spec fn states_view(v: Seq<MetricState>) -> Seq<Seq<CellModel>> {
    v.map_values(|m: MetricState| cells_view(m.cells@))
}

/// What a write changes.
pub struct PipelineModel {
    pub store: Seq<EntryModel>,
    pub queues: Seq<QueueModel>,
    pub cells: Seq<Seq<CellModel>>,
}

impl View for LogPipeline {
    type V = PipelineModel;

    open spec fn view(&self) -> PipelineModel {
        PipelineModel {
            store: entries_view(self.store@),
            queues: queues_view(self.queues@),
            cells: states_view(self.metric_states@),
        }
    }
}

/// The state after storing `ks`, offering them to every sink, and counting
/// them in every metric.
pub open spec fn applied(p: LogPipeline, before: PipelineModel, ks: Seq<EntryModel>) -> PipelineModel {
    PipelineModel {
        store: before.store + ks,
        queues: Seq::new(
            before.queues.len(),
            |k: int| route_all(before.queues[k], ks, p.sinks@[k], p.scopes.scopes@),
        ),
        cells: Seq::new(
            before.cells.len(),
            |m: int| observe_all(p.metrics@[m], before.cells[m], ks),
        ),
    }
}

/// `after` is `before` with the kept entries of the batch `nb` applied in
/// the order of a stable sort by key (there is one such order, see
/// `lemma_stable_order_unique`).
pub open spec fn stored_in_key_order(before: LogPipeline, after: PipelineModel, nb: Seq<EntryModel>) -> bool {
    exists|order: Seq<usize>|
        is_permutation(order, nb.len()) && stably_sorted(order, keys_of(nb)) && after == applied(
            before,
            before@,
            kept(arranged(order, nb), before.exclusions@, before.scopes.scopes@, before.tombstones@),
        )
}

impl LogPipeline {
    pub open spec fn wf(&self) -> bool {
        &&& all_exclusions_wf(self.exclusions@)
        &&& self.sinks@.len() == self.queues@.len()
        &&& forall|k: int| 0 <= k < self.sinks@.len() ==> (#[trigger] self.sinks@[k]).wf()
        &&& forall|k: int|
            0 <= k < self.queues@.len() ==> (#[trigger] self.queues@[k]).entries@.len()
                <= self.queues@[k].capacity
        &&& self.metrics@.len() == self.metric_states@.len()
        &&& forall|m: int| 0 <= m < self.metrics@.len() ==> (#[trigger] self.metrics@[m]).wf()
    }

    /// Compiles a configuration snapshot. Every sink gets an empty queue of
    /// `sink_capacity` entries with the given overflow policy; queries see
    /// entries stamped up to `retention_seconds` in the past.
    pub fn new(
        scopes: ScopeTree,
        exclusions: &Vec<LogExclusion>,
        sinks: &Vec<LogSink>,
        sink_capacity: usize,
        drop_oldest: bool,
        metrics: &Vec<LogMetric>,
        retention_seconds: i64,
    ) -> (r: Result<LogPipeline, ConfigError>)
        ensures
            match r {
                Ok(p) => p.wf() && p.tombstones@.len() == 0 && p.retention_seconds == retention_seconds && p.exclusions@.len() == exclusions@.len() && p.sinks@.len()
                    == sinks@.len() && p.metrics@.len() == metrics@.len() && p@.store.len() == 0
                    && (forall|k: int| 0 <= k < exclusions@.len() ==> exclusion_compiled(
                    exclusions@[k],
                    #[trigger] p.exclusions@[k],
                )) && (forall|k: int| 0 <= k < sinks@.len() ==> sink_compiled(
                    sinks@[k],
                    #[trigger] p.sinks@[k],
                )) && (forall|k: int| 0 <= k < metrics@.len() ==> metric_compiled(
                    metrics@[k],
                    #[trigger] p.metrics@[k],
                ))
                    && (forall|k: int|
                    0 <= k < p@.queues.len() ==> #[trigger] p@.queues[k] == (QueueModel {
                        entries: Seq::empty(),
                        capacity: sink_capacity as nat,
                        drop_oldest,
                        shed: 0,
                    })) && (forall|m: int|
                    0 <= m < p@.cells.len() ==> #[trigger] p@.cells[m].len() == 0),
                Err(ConfigError::Exclusion(i, e)) => i < exclusions@.len() && filter_syntax(
                    exclusions@[i as int].filter@,
                ) == Err::<ExprModel, FilterError>(e),
                Err(ConfigError::Sink(i, e)) => i < sinks@.len() && filter_syntax(
                    sinks@[i as int].filter@,
                ) == Err::<ExprModel, FilterError>(e),
                Err(ConfigError::Metric(i, e)) => i < metrics@.len() && metric_refused(
                    metrics@[i as int],
                    e,
                ),
            },
    {
        let mut xs: Vec<CompiledExclusion> = Vec::new();
        let mut i: usize = 0;
        while i < exclusions.len()
            invariant
                i <= exclusions@.len(),
                xs@.len() == i,
                all_exclusions_wf(xs@),
                forall|k: int| 0 <= k < i ==> exclusion_compiled(exclusions@[k], #[trigger] xs@[k]),
            decreases exclusions@.len() - i,
        {
            match exclusions[i].compile() {
                Ok(x) => xs.push(x),
                Err(e) => return Err(ConfigError::Exclusion(i, e)),
            }
            i = i + 1;
        }
        let mut ks: Vec<CompiledSink> = Vec::new();
        let mut qs: Vec<SinkQueue> = Vec::new();
        let mut j: usize = 0;
        while j < sinks.len()
            invariant
                j <= sinks@.len(),
                ks@.len() == j,
                qs@.len() == j,
                forall|k: int| 0 <= k < j ==> sink_compiled(sinks@[k], #[trigger] ks@[k]),
                forall|k: int| 0 <= k < j ==> (#[trigger] ks@[k]).wf(),
                forall|k: int|
                    0 <= k < j ==> #[trigger] qs@[k]@ == (QueueModel {
                        entries: Seq::empty(),
                        capacity: sink_capacity as nat,
                        drop_oldest,
                        shed: 0,
                    }),
            decreases sinks@.len() - j,
        {
            match sinks[j].compile() {
                Ok(k) => ks.push(k),
                Err(e) => return Err(ConfigError::Sink(j, e)),
            }
            let q = SinkQueue::new(sink_capacity, drop_oldest);
            assert(q@.entries =~= Seq::<EntryModel>::empty());
            qs.push(q);
            j = j + 1;
        }
        let mut ms: Vec<CompiledMetric> = Vec::new();
        let mut states: Vec<MetricState> = Vec::new();
        let mut m: usize = 0;
        while m < metrics.len()
            invariant
                m <= metrics@.len(),
                ms@.len() == m,
                states@.len() == m,
                forall|k: int| 0 <= k < m ==> metric_compiled(metrics@[k], #[trigger] ms@[k]),
                forall|k: int| 0 <= k < m ==> (#[trigger] ms@[k]).wf(),
                forall|k: int| 0 <= k < m ==> cells_view((#[trigger] states@[k]).cells@).len() == 0,
            decreases metrics@.len() - m,
        {
            match metrics[m].compile() {
                Ok(c) => ms.push(c),
                Err(e) => return Err(ConfigError::Metric(m, e)),
            }
            states.push(MetricState::new());
            m = m + 1;
        }
        let p = LogPipeline {
            scopes,
            exclusions: xs,
            sinks: ks,
            queues: qs,
            metrics: ms,
            metric_states: states,
            store: Vec::new(),
            tombstones: Vec::new(),
            retention_seconds,
        };
        assert forall|k: int| 0 <= k < p.queues@.len() implies (#[trigger] p.queues@[k]).entries@.len()
            <= p.queues@[k].capacity by {
            assert(p.queues@[k]@.entries.len() == 0);
        }
        Ok(p)
    }

    /// Writes a batch. Entries are normalized (see `normalized_batch`, with
    /// `now` as the time and `id_prefix` to generate insert ids), checked,
    /// and sequenced by key. If an entry is malformed and partial success
    /// was not asked for, nothing happens and the first bad entry is
    /// reported. Otherwise the bad entries are listed, and unless this is a
    /// dry run the others, less those an exclusion suppresses, are stored,
    /// offered to the sinks, and counted in the metrics, in key order.
    pub fn write_log_entries(
        &mut self,
        req: &WriteLogEntriesRequest,
        now: Timestamp,
        id_prefix: &str,
    ) -> (r: Result<WriteLogEntriesResponse, WriteError>)
        requires
            old(self).wf(),
        ensures
            final(self).wf(),
            final(self).scopes == old(self).scopes,
            final(self).exclusions == old(self).exclusions,
            final(self).sinks == old(self).sinks,
            final(self).metrics == old(self).metrics,
            final(self).tombstones == old(self).tombstones,
            final(self).retention_seconds == old(self).retention_seconds,
            ({
                let nb = normalized_batch(
                    entries_view(req.entries@),
                    (DefaultsModel {
                        log_name: req.log_name@,
                        resource: match req.resource {
                            Some(x) => Some(x@),
                            None => None,
                        },
                        labels: crate::entry::labels_view(req.labels@),
                    }),
                    now,
                    id_prefix@,
                );
                let fs = faults(nb, old(self).scopes.scopes@);
                match r {
                    Err(WriteError::InvalidArgument(e)) => !req.partial_success && fs.len() > 0
                        && e == fs[0] && final(self)@ == old(self)@,
                    Ok(resp) => (req.partial_success || fs.len() == 0) && resp.partial_errors.log_entry_errors@
                        == fs && (req.dry_run ==> final(self)@ == old(self)@) && (!req.dry_run
                        ==> stored_in_key_order(*old(self), final(self)@, nb)),
                }
            }),
    {
        let d = WriteDefaults {
            log_name: req.log_name.clone(),
            resource: match &req.resource {
                Some(x) => Some(x.duplicate()),
                None => None,
            },
            labels: crate::entry::copy_labels(&req.labels),
        };
        assert(d@ == (DefaultsModel {
            log_name: req.log_name@,
            resource: match req.resource {
                Some(x) => Some(x@),
                None => None,
            },
            labels: crate::entry::labels_view(req.labels@),
        }));
        let norm = normalize_batch(&req.entries, &d, now, id_prefix);
        let ghost nb = entries_view(norm@);
        let mut errs: Vec<EntryError> = Vec::new();
        let mut i: usize = 0;
        while i < norm.len()
            invariant
                i <= norm@.len(),
                nb == entries_view(norm@),
                errs@ == faults(nb.subrange(0, i as int), self.scopes.scopes@),
            decreases norm@.len() - i,
        {
            let ghost pre = nb.subrange(0, i as int + 1);
            assert(pre.drop_last() =~= nb.subrange(0, i as int));
            assert(pre.last() == norm@[i as int]@);
            let e = &norm[i];
            match entry_check(&self.scopes, e) {
                Some(fault) => errs.push(EntryError { index: i, fault }),
                None => {},
            }
            i = i + 1;
        }
        assert(nb.subrange(0, i as int) =~= nb);
        if errs.len() > 0 && !req.partial_success {
            return Err(WriteError::InvalidArgument(errs[0]));
        }
        if req.dry_run {
            return Ok(
                WriteLogEntriesResponse {
                    partial_errors: WriteLogEntriesPartialErrors { log_entry_errors: errs },
                },
            );
        }
        let order = sort_order(&norm);
        let ghost es = arranged(order@, nb);
        let ghost xs = self.exclusions@;
        let ghost t = self.scopes.scopes@;
        let mut ks: Vec<LogEntry> = Vec::new();
        let mut j: usize = 0;
        while j < order.len()
            invariant
                j <= order@.len(),
                is_permutation(order@, norm@.len()),
                nb == entries_view(norm@),
                es == arranged(order@, nb),
                xs == self.exclusions@,
                t == self.scopes.scopes@,
                all_exclusions_wf(self.exclusions@),
                entries_view(ks@) == kept(es.subrange(0, j as int), xs, t, self.tombstones@),
            decreases order@.len() - j,
        {
            let ghost pre = es.subrange(0, j as int + 1);
            assert(pre.drop_last() =~= es.subrange(0, j as int));
            let e = &norm[order[j]];
            assert(pre.last() == e@);
            let bad = entry_check(&self.scopes, e).is_some();
            if !bad && !is_excluded(&self.exclusions, &self.scopes, self.scopes.scope_of(&e.log_name), e) && !is_deleted(
                &self.tombstones,
                e,
            ) {
                let ghost before = entries_view(ks@);
                ks.push(e.duplicate());
                assert(entries_view(ks@) =~= before.push(e@));
            }
            j = j + 1;
        }
        assert(es.subrange(0, j as int) =~= es);
        self.commit(&ks);
        assert(is_permutation(order@, nb.len()) && stably_sorted(order@, keys_of(nb)));
        assert(stored_in_key_order(*old(self), self@, nb));
        Ok(
            WriteLogEntriesResponse {
                partial_errors: WriteLogEntriesPartialErrors { log_entry_errors: errs },
            },
        )
    }

    /// Stores the entries, offers them to every sink and counts them in
    /// every metric.
    fn commit(&mut self, ks: &Vec<LogEntry>)
        requires
            old(self).wf(),
        ensures
            final(self).wf(),
            final(self).scopes == old(self).scopes,
            final(self).exclusions == old(self).exclusions,
            final(self).sinks == old(self).sinks,
            final(self).metrics == old(self).metrics,
            final(self).tombstones == old(self).tombstones,
            final(self).retention_seconds == old(self).retention_seconds,
            final(self)@ == applied(*old(self), old(self)@, entries_view(ks@)),
    {
        let ghost kseq = entries_view(ks@);
        let mut i: usize = 0;
        while i < ks.len()
            invariant
                i <= ks@.len(),
                kseq == entries_view(ks@),
                entries_view(self.store@) == entries_view(old(self).store@) + kseq.subrange(
                    0,
                    i as int,
                ),
                self.queues == old(self).queues,
                self.metric_states == old(self).metric_states,
                self.scopes == old(self).scopes,
                self.exclusions == old(self).exclusions,
                self.sinks == old(self).sinks,
                self.metrics == old(self).metrics,
                self.tombstones == old(self).tombstones,
                self.retention_seconds == old(self).retention_seconds,
            decreases ks@.len() - i,
        {
            let ghost before = entries_view(self.store@);
            let e = ks[i].duplicate();
            self.store.push(e);
            assert(entries_view(self.store@) =~= before.push(kseq[i as int]));
            i = i + 1;
            assert(entries_view(old(self).store@) + kseq.subrange(0, i as int) =~= before.push(
                kseq[i - 1],
            ));
        }
        assert(kseq.subrange(0, i as int) =~= kseq);
        let mut k: usize = 0;
        while k < self.sinks.len()
            invariant
                k <= self.sinks@.len(),
                kseq == entries_view(ks@),
                self.sinks@.len() == self.queues@.len(),
                self.queues@.len() == old(self).queues@.len(),
                forall|q: int| 0 <= q < self.sinks@.len() ==> (#[trigger] self.sinks@[q]).wf(),
                forall|q: int|
                    0 <= q < self.queues@.len() ==> (#[trigger] self.queues@[q]).entries@.len()
                        <= self.queues@[q].capacity,
                forall|q: int|
                    0 <= q < k ==> #[trigger] queues_view(self.queues@)[q] == route_all(
                        queues_view(old(self).queues@)[q],
                        kseq,
                        self.sinks@[q],
                        self.scopes.scopes@,
                    ),
                forall|q: int|
                    k <= q < self.queues@.len() ==> #[trigger] self.queues@[q] == old(
                        self,
                    ).queues@[q],
                entries_view(self.store@) == entries_view(old(self).store@) + kseq,
                self.metric_states == old(self).metric_states,
                self.scopes == old(self).scopes,
                self.exclusions == old(self).exclusions,
                self.sinks == old(self).sinks,
                self.metrics == old(self).metrics,
                self.tombstones == old(self).tombstones,
                self.retention_seconds == old(self).retention_seconds,
            decreases self.sinks@.len() - k,
        {
            let ghost head = self.queues@;
            let mut q = SinkQueue::new(0, false);
            self.queues.set_and_swap(k, &mut q);
            assert(q == old(self).queues@[k as int]);
            let ghost q0 = q@;
            let mut i: usize = 0;
            while i < ks.len()
                invariant
                    i <= ks@.len(),
                    kseq == entries_view(ks@),
                    k < self.sinks@.len(),
                    self.sinks@[k as int].wf(),
                    q@ == route_all(q0, kseq.subrange(0, i as int), self.sinks@[k as int], self.scopes.scopes@),
                    q.entries@.len() <= q.capacity,
                decreases ks@.len() - i,
            {
                let ghost pre = kseq.subrange(0, i as int + 1);
                assert(pre.drop_last() =~= kseq.subrange(0, i as int));
                assert(pre.last() == ks@[i as int]@);
                if sink_accepts(&self.sinks[k], &self.scopes, self.scopes.scope_of(&ks[i].log_name), &ks[i]) {
                    q.push(ks[i].duplicate());
                }
                i = i + 1;
            }
            assert(kseq.subrange(0, i as int) =~= kseq);
            let ghost before = self.queues@;
            self.queues.set(k, q);
            assert(queues_view(self.queues@)[k as int] == q@);
            assert forall|x: int| 0 <= x < k implies #[trigger] queues_view(self.queues@)[x]
                == route_all(
                queues_view(old(self).queues@)[x],
                kseq,
                self.sinks@[x],
                self.scopes.scopes@,
            ) by {
                assert(self.queues@[x] == head[x]);
                assert(queues_view(head)[x] == head[x]@);
            }
            k = k + 1;
        }
        let mut m: usize = 0;
        while m < self.metrics.len()
            invariant
                m <= self.metrics@.len(),
                kseq == entries_view(ks@),
                self.metrics@.len() == self.metric_states@.len(),
                self.metric_states@.len() == old(self).metric_states@.len(),
                forall|x: int| 0 <= x < self.metrics@.len() ==> (#[trigger] self.metrics@[x]).wf(),
                forall|x: int|
                    0 <= x < m ==> #[trigger] states_view(self.metric_states@)[x] == observe_all(
                        self.metrics@[x],
                        states_view(old(self).metric_states@)[x],
                        kseq,
                    ),
                forall|x: int|
                    m <= x < self.metric_states@.len() ==> #[trigger] self.metric_states@[x] == old(
                        self,
                    ).metric_states@[x],
                entries_view(self.store@) == entries_view(old(self).store@) + kseq,
                self.sinks@.len() == self.queues@.len(),
                forall|q: int| 0 <= q < self.sinks@.len() ==> (#[trigger] self.sinks@[q]).wf(),
                forall|q: int|
                    0 <= q < self.queues@.len() ==> (#[trigger] self.queues@[q]).entries@.len()
                        <= self.queues@[q].capacity,
                self.queues@.len() == old(self).queues@.len(),
                forall|q: int|
                    0 <= q < self.queues@.len() ==> #[trigger] queues_view(self.queues@)[q]
                        == route_all(
                        queues_view(old(self).queues@)[q],
                        kseq,
                        self.sinks@[q],
                        self.scopes.scopes@,
                    ),
                self.scopes == old(self).scopes,
                self.exclusions == old(self).exclusions,
                self.sinks == old(self).sinks,
                self.metrics == old(self).metrics,
                self.tombstones == old(self).tombstones,
                self.retention_seconds == old(self).retention_seconds,
            decreases self.metrics@.len() - m,
        {
            let ghost head = self.metric_states@;
            let mut st = MetricState::new();
            self.metric_states.set_and_swap(m, &mut st);
            assert(st == old(self).metric_states@[m as int]);
            let ghost c0 = cells_view(st.cells@);
            let mut i: usize = 0;
            while i < ks.len()
                invariant
                    i <= ks@.len(),
                    kseq == entries_view(ks@),
                    m < self.metrics@.len(),
                    self.metrics@[m as int].wf(),
                    cells_view(st.cells@) == observe_all(self.metrics@[m as int], c0, kseq.subrange(0, i as int)),
                decreases ks@.len() - i,
            {
                let ghost pre = kseq.subrange(0, i as int + 1);
                assert(pre.drop_last() =~= kseq.subrange(0, i as int));
                assert(pre.last() == ks@[i as int]@);
                st.observe(&self.metrics[m], &ks[i]);
                i = i + 1;
            }
            assert(kseq.subrange(0, i as int) =~= kseq);
            let ghost before = self.metric_states@;
            self.metric_states.set(m, st);
            assert forall|x: int| 0 <= x < m implies #[trigger] states_view(self.metric_states@)[x]
                == observe_all(
                self.metrics@[x],
                states_view(old(self).metric_states@)[x],
                kseq,
            ) by {
                assert(self.metric_states@[x] == head[x]);
                assert(states_view(head)[x] == cells_view(head[x].cells@));
            }
            m = m + 1;
        }
        assert(self@.queues =~= applied(*old(self), old(self)@, kseq).queues);
        assert(self@.cells =~= applied(*old(self), old(self)@, kseq).cells);
    }
}

/// An entry written on its own, with its own log name, resource, timestamp
/// and insert id, in a batch whose default labels it already has, is stored
/// with exactly its own field values (the receive time stamped), unless it
/// is malformed, excluded, or covered by a deletion.
pub proof fn lemma_written_entry_stored_unchanged(
    before: LogPipeline,
    after: PipelineModel,
    e: EntryModel,
    d: DefaultsModel,
    now: Timestamp,
    prefix: Text,
)
    requires
        e.log_name.len() > 0,
        e.resource is Some,
        e.timestamp is Some,
        e.insert_id.len() > 0,
        forall|i: int| 0 <= i < d.labels.len() ==> label_lookup(e.labels, (#[trigger] d.labels[i]).0) is Some,
        stored_in_key_order(before, after, normalized_batch(seq![e], d, now, prefix)),
    ensures
        ({
            let stamped = EntryModel { receive_timestamp: Some(now), ..e };
            let t = before.scopes.scopes@;
            entry_fault(stamped, t) is None && !excluded(
                before.exclusions@,
                t,
                scope_of_log(t, stamped.log_name),
                stamped,
            ) && !deleted_before(before.tombstones@, stamped) ==> after.store == before@.store.push(
                stamped,
            )
        }),
{
    let nb = normalized_batch(seq![e], d, now, prefix);
    let stamped = EntryModel { receive_timestamp: Some(now), ..e };
    let t = before.scopes.scopes@;
    lemma_explicit_entry_unchanged(e, d, now, generated_id(prefix, 0));
    assert(nb[0] == stamped);
    let order = choose|order: Seq<usize>|
        is_permutation(order, nb.len()) && stably_sorted(order, keys_of(nb)) && after == applied(
            before,
            before@,
            kept(arranged(order, nb), before.exclusions@, t, before.tombstones@),
        );
    assert(order[0] < 1);
    let es = arranged(order, nb);
    assert(es =~= seq![stamped]);
    let ks = kept(es, before.exclusions@, t, before.tombstones@);
    assert(es.drop_last() =~= Seq::<EntryModel>::empty());
    if entry_fault(stamped, t) is None && !excluded(
        before.exclusions@,
        t,
        scope_of_log(t, stamped.log_name),
        stamped,
    ) && !deleted_before(before.tombstones@, stamped) {
        assert(es.last() == stamped);
        assert(kept(es.drop_last(), before.exclusions@, t, before.tombstones@) == Seq::<
            EntryModel,
        >::empty());
        assert(ks == Seq::<EntryModel>::empty().push(stamped));
        assert(ks =~= seq![stamped]);
        assert(before@.store + seq![stamped] =~= before@.store.push(stamped));
    }
}

/// A partially successful write stores none of the entries it refuses:
/// every entry it keeps comes from the batch and has no fault.
pub proof fn lemma_kept_entries_are_sound(
    es: Seq<EntryModel>,
    xs: Seq<CompiledExclusion>,
    t: Seq<Scope>,
    tombs: Seq<Tombstone>,
)
    ensures
        forall|k: int|
            0 <= k < kept(es, xs, t, tombs).len() ==> entry_fault(
                #[trigger] kept(es, xs, t, tombs)[k],
                t,
            ) is None && exists|j: int| 0 <= j < es.len() && es[j] == kept(es, xs, t, tombs)[k],
    decreases es.len(),
{
    if es.len() > 0 {
        let rest = es.drop_last();
        lemma_kept_entries_are_sound(rest, xs, t, tombs);
        let ks = kept(es, xs, t, tombs);
        let kr = kept(rest, xs, t, tombs);
        assert forall|k: int| 0 <= k < ks.len() implies entry_fault(#[trigger] ks[k], t) is None
            && exists|j: int| 0 <= j < es.len() && es[j] == ks[k] by {
            if k < kr.len() {
                assert(ks[k] == kr[k]);
                let j = choose|j: int| 0 <= j < rest.len() && rest[j] == kr[k];
                assert(es[j] == rest[j]);
            } else {
                assert(ks[k] == es[es.len() - 1]);
            }
        }
    }
}

/// Whether a write keeps a normalized entry: no fault, no exclusion, no
/// deletion covering it.
pub open spec fn keeps(before: LogPipeline, e: EntryModel) -> bool {
    let t = before.scopes.scopes@;
    entry_fault(e, t) is None && !excluded(before.exclusions@, t, scope_of_log(t, e.log_name), e)
        && !deleted_before(before.tombstones@, e)
}

/// A partially successful write of three entries whose middle one is
/// refused stores exactly the other two, the lower key first (the first
/// when the keys are equal), and nothing of the refused one.
pub proof fn lemma_partial_write_of_three(
    before: LogPipeline,
    after: PipelineModel,
    nb: Seq<EntryModel>,
)
    requires
        nb.len() == 3,
        entry_fault(nb[1], before.scopes.scopes@) is Some,
        keeps(before, nb[0]),
        keeps(before, nb[2]),
        stored_in_key_order(before, after, nb),
    ensures
        after.store == before@.store + if key_lt(key_of(nb[2]), key_of(nb[0])) {
            seq![nb[2], nb[0]]
        } else {
            seq![nb[0], nb[2]]
        },
{
    let t = before.scopes.scopes@;
    let order = choose|order: Seq<usize>|
        is_permutation(order, nb.len()) && stably_sorted(order, keys_of(nb)) && after == applied(
            before,
            before@,
            kept(arranged(order, nb), before.exclusions@, t, before.tombstones@),
        );
    let ks = keys_of(nb);
    assert(lists(order, 0) && lists(order, 1) && lists(order, 2));
    let p0 = choose|i: int| 0 <= i < order.len() && order[i] == 0;
    let p2 = choose|i: int| 0 <= i < order.len() && order[i] == 2;
    assert(ks[0] == key_of(nb[0]) && ks[2] == key_of(nb[2]));
    let first2 = key_lt(key_of(nb[2]), key_of(nb[0]));
    if first2 {
        lemma_sorted_positions(order, ks, p2, p0);
    } else {
        if key_lt(key_of(nb[0]), key_of(nb[2])) {
        } else {
            lemma_key_total(key_of(nb[0]), key_of(nb[2]));
        }
        lemma_sorted_positions(order, ks, p0, p2);
    }
    let es = arranged(order, nb);
    let xs = before.exclusions@;
    let tb = before.tombstones@;
    assert(es.drop_last().drop_last().drop_last() =~= Seq::<EntryModel>::empty());
    assert(es.drop_last().drop_last() =~= seq![es[0]]);
    assert(es.drop_last() =~= seq![es[0], es[1]]);
    let k1 = kept(seq![es[0]], xs, t, tb);
    assert(seq![es[0]].drop_last() =~= Seq::<EntryModel>::empty());
    assert(seq![es[0], es[1]].drop_last() =~= seq![es[0]]);
    let e0 = es.drop_last().drop_last();
    let e01 = es.drop_last();
    assert(kept(Seq::<EntryModel>::empty(), xs, t, tb) == Seq::<EntryModel>::empty());
    assert(e0.drop_last() =~= Seq::<EntryModel>::empty());
    assert(e0.last() == es[0]);
    assert(e01.last() == es[1]);
    let ka = if keeps(before, es[0]) {
        seq![es[0]]
    } else {
        Seq::<EntryModel>::empty()
    };
    assert(kept(e0, xs, t, tb) =~= ka);
    let kb = if keeps(before, es[1]) {
        ka.push(es[1])
    } else {
        ka
    };
    assert(kept(e01, xs, t, tb) =~= kb);
    let kc = if keeps(before, es[2]) {
        kb.push(es[2])
    } else {
        kb
    };
    assert(kept(es, xs, t, tb) =~= kc);
    assert(es[0] == nb[order[0] as int] && es[1] == nb[order[1] as int] && es[2] == nb[order[2] as int]);
    assert(order[0] < 3 && order[1] < 3 && order[2] < 3);
    assert(order[0] != order[1] && order[0] != order[2] && order[1] != order[2]);
    assert(!keeps(before, nb[1]));
    let kept_all = kept(es, xs, t, tb);
    let want = if first2 {
        seq![nb[2], nb[0]]
    } else {
        seq![nb[0], nb[2]]
    };
    assert(kept_all =~= want);
    assert(after.store =~= before@.store + want);
}

} // verus!
