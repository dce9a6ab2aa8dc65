//! Exclusion rules, sinks, and the bounded export queue of each sink.
use vstd::prelude::*;
use crate::entry::{EntryModel, LogEntry, Payload, PayloadModel, entries_view};
use crate::filter::{Filter, selects};
use crate::grammar::{ExprModel, expr_model, filter_syntax};
use crate::parse::{FilterError, compile};
use crate::scope::{ScopeKind, ScopeTree, kind_of, scope_of_log, within};
use crate::text::{chars_eq_str, to_chars};

verus! {

/// Type of the payload of audit logs, which exclusions of a folder or an
/// organization never suppress.
pub open spec fn is_audit(e: EntryModel) -> bool {
    match e.payload {
        Some(PayloadModel::Proto { type_url, .. }) => type_url
            == "type.googleapis.com/google.cloud.audit.AuditLog"@,
        _ => false,
    }
}

pub fn entry_is_audit(e: &LogEntry) -> (r: bool)
    ensures
        r == is_audit(e@),
{
    match &e.payload {
        Some(Payload::Proto { type_url, .. }) => {
            let t = to_chars(type_url.as_str());
            chars_eq_str(&t, "type.googleapis.com/google.cloud.audit.AuditLog")
        },
        _ => false,
    }
}

/// A suppression rule as configured.
#[derive(Debug)]
pub struct LogExclusion {
    pub name: String,
    pub description: String,
    pub filter: String,
    pub disabled: bool,
    pub scope: usize,
}

/// An exclusion rule with its filter compiled.
#[derive(Debug)]
pub struct CompiledExclusion {
    pub scope: usize,
    pub disabled: bool,
    pub filter: Filter,
}

impl CompiledExclusion {
    pub open spec fn wf(&self) -> bool {
        self.filter.wf()
    }
}

/// `x` is what the configured rule `cfg` compiles to.
pub open spec fn exclusion_compiled(cfg: LogExclusion, x: CompiledExclusion) -> bool {
    x.wf() && x.scope == cfg.scope && x.disabled == cfg.disabled && filter_syntax(cfg.filter@)
        == Ok::<ExprModel, FilterError>(expr_model(x.filter.expr))
}

impl LogExclusion {
    pub fn compile(&self) -> (r: Result<CompiledExclusion, FilterError>)
        ensures
            match r {
                Ok(x) => exclusion_compiled(*self, x),
                Err(e) => e.position <= self.filter@.len() && filter_syntax(self.filter@) == Err::<
                    ExprModel,
                    FilterError,
                >(e),
            },
    {
        match compile(self.filter.as_str()) {
            Ok(f) => Ok(CompiledExclusion { scope: self.scope, disabled: self.disabled, filter: f }),
            Err(e) => Err(e),
        }
    }
}

/// Whether a rule of scope `rule` reaches entries written to scope `s`: its
/// own scope always, a folder or organization above it unless the entry is
/// an audit log.
///
/// No rule is overridden by one of a closer scope. Rules only suppress, and
/// a scope's configuration holds no rule that re-admits entries, so a closer
/// scope can add suppression but has nothing with which to undo a rule from
/// above; each entry is suppressed when any rule that reaches it matches.
pub open spec fn exclusion_reaches(t: Seq<crate::scope::Scope>, rule: int, s: int, audit: bool) -> bool {
    rule == s || (!audit && within(t, rule, s) && (kind_of(t, rule) == Some(ScopeKind::Folder)
        || kind_of(t, rule) == Some(ScopeKind::Organization)))
}

pub open spec fn excluded_by(x: CompiledExclusion, t: Seq<crate::scope::Scope>, s: int, e: EntryModel) -> bool {
    !x.disabled && exclusion_reaches(t, x.scope as int, s, is_audit(e)) && selects(x.filter.expr, e)
}

/// Whether any rule suppresses the entry.
pub open spec fn excluded(xs: Seq<CompiledExclusion>, t: Seq<crate::scope::Scope>, s: int, e: EntryModel) -> bool {
    exists|k: int| 0 <= k < xs.len() && excluded_by(#[trigger] xs[k], t, s, e)
}

pub open spec fn all_exclusions_wf(xs: Seq<CompiledExclusion>) -> bool {
    forall|k: int| 0 <= k < xs.len() ==> (#[trigger] xs[k]).wf()
}

pub fn is_excluded(xs: &Vec<CompiledExclusion>, tree: &ScopeTree, s: usize, e: &LogEntry) -> (r:
    bool)
    requires
        all_exclusions_wf(xs@),
    ensures
        r == excluded(xs@, tree.scopes@, s as int, e@),
{
    let audit = entry_is_audit(e);
    let mut k: usize = 0;
    while k < xs.len()
        invariant
            k <= xs@.len(),
            all_exclusions_wf(xs@),
            audit == is_audit(e@),
            forall|j: int| 0 <= j < k ==> !excluded_by(#[trigger] xs@[j], tree.scopes@, s as int, e@),
        decreases xs@.len() - k,
    {
        let x = &xs[k];
        let reaches = x.scope == s || (!audit && tree.contains(x.scope, s) && match tree.kind(
            x.scope,
        ) {
            Some(ScopeKind::Folder) => true,
            Some(ScopeKind::Organization) => true,
            _ => false,
        });
        assert(xs@[k as int].wf());
        if !x.disabled && reaches && x.filter.matches(e) {
            assert(excluded_by(xs@[k as int], tree.scopes@, s as int, e@));
            return true;
        }
        k = k + 1;
    }
    false
}

/// An export rule as configured.
#[derive(Debug)]
pub struct LogSink {
    pub name: String,
    pub destination: String,
    pub filter: String,
    pub disabled: bool,
    pub writer_identity: String,
    pub include_children: bool,
    pub scope: usize,
}

/// A sink with its filter compiled.
#[derive(Debug)]
pub struct CompiledSink {
    pub scope: usize,
    pub disabled: bool,
    pub include_children: bool,
    pub filter: Filter,
}

impl CompiledSink {
    pub open spec fn wf(&self) -> bool {
        self.filter.wf()
    }
}

/// `k` is what the configured sink `cfg` compiles to.
pub open spec fn sink_compiled(cfg: LogSink, k: CompiledSink) -> bool {
    k.wf() && k.scope == cfg.scope && k.disabled == cfg.disabled && k.include_children
        == cfg.include_children && filter_syntax(cfg.filter@) == Ok::<ExprModel, FilterError>(
        expr_model(k.filter.expr),
    )
}

impl LogSink {
    pub fn compile(&self) -> (r: Result<CompiledSink, FilterError>)
        ensures
            match r {
                Ok(k) => sink_compiled(*self, k),
                Err(e) => e.position <= self.filter@.len() && filter_syntax(self.filter@) == Err::<
                    ExprModel,
                    FilterError,
                >(e),
            },
    {
        match compile(self.filter.as_str()) {
            Ok(f) => Ok(
                CompiledSink {
                    scope: self.scope,
                    disabled: self.disabled,
                    include_children: self.include_children,
                    filter: f,
                },
            ),
            Err(e) => Err(e),
        }
    }
}

/// Whether a sink exports an entry written to scope `s`: an enabled sink of
/// that scope, or of a scope above it that includes its children, whose
/// filter selects the entry.
pub open spec fn sink_takes(k: CompiledSink, t: Seq<crate::scope::Scope>, s: int, e: EntryModel) -> bool {
    !k.disabled && (k.scope == s || (k.include_children && within(t, k.scope as int, s)))
        && selects(k.filter.expr, e)
}

pub fn sink_accepts(k: &CompiledSink, tree: &ScopeTree, s: usize, e: &LogEntry) -> (r: bool)
    requires
        k.wf(),
    ensures
        r == sink_takes(*k, tree.scopes@, s as int, e@),
{
    !k.disabled && (k.scope == s || (k.include_children && tree.contains(k.scope, s)))
        && k.filter.matches(e)
}

/// The pending exports of one sink, bounded by `capacity`. When it is full,
/// a new entry either pushes out the oldest (`drop_oldest`) or is refused;
/// either way `shed` counts the loss.
#[derive(Debug)]
pub struct SinkQueue {
    pub entries: Vec<LogEntry>,
    pub capacity: usize,
    pub drop_oldest: bool,
    pub shed: u64,
}

pub struct QueueModel {
    pub entries: Seq<EntryModel>,
    pub capacity: nat,
    pub drop_oldest: bool,
    pub shed: nat,
}

impl View for SinkQueue {
    type V = QueueModel;

    open spec fn view(&self) -> QueueModel {
        QueueModel {
            entries: entries_view(self.entries@),
            capacity: self.capacity as nat,
            drop_oldest: self.drop_oldest,
            shed: self.shed as nat,
        }
    }
}

pub open spec fn sat_inc(n: nat) -> nat {
    if n < u64::MAX {
        n + 1
    } else {
        n
    }
}

pub open spec fn enqueue(q: QueueModel, e: EntryModel) -> QueueModel {
    if q.entries.len() < q.capacity {
        QueueModel { entries: q.entries.push(e), ..q }
    } else if q.drop_oldest && q.capacity > 0 {
        QueueModel { entries: q.entries.drop_first().push(e), shed: sat_inc(q.shed), ..q }
    } else {
        QueueModel { shed: sat_inc(q.shed), ..q }
    }
}

/// The queue after offering it each entry of `es` that the sink takes, each
/// judged in the scope of its own log.
pub open spec fn route_all(
    q: QueueModel,
    es: Seq<EntryModel>,
    k: CompiledSink,
    t: Seq<crate::scope::Scope>,
) -> QueueModel
    decreases es.len(),
{
    if es.len() == 0 {
        q
    } else {
        let q2 = route_all(q, es.drop_last(), k, t);
        if sink_takes(k, t, scope_of_log(t, es.last().log_name), es.last()) {
            enqueue(q2, es.last())
        } else {
            q2
        }
    }
}

impl SinkQueue {
    pub fn new(capacity: usize, drop_oldest: bool) -> (r: SinkQueue)
        ensures
            r@.entries.len() == 0,
            r@.capacity == capacity,
            r@.drop_oldest == drop_oldest,
            r@.shed == 0,
    {
        SinkQueue { entries: Vec::new(), capacity, drop_oldest, shed: 0 }
    }

    pub fn push(&mut self, e: LogEntry)
        requires
            old(self).entries@.len() <= old(self).capacity,
        ensures
            final(self)@ == enqueue(old(self)@, e@),
            final(self).entries@.len() <= final(self).capacity,
    {
        if self.entries.len() < self.capacity {
            let ghost before = entries_view(self.entries@);
            self.entries.push(e);
            assert(entries_view(self.entries@) =~= before.push(e@));
        } else {
            if self.drop_oldest && self.capacity > 0 {
                let ghost before = entries_view(self.entries@);
                self.entries.remove(0);
                assert(entries_view(self.entries@) =~= before.drop_first());
                let ghost mid = entries_view(self.entries@);
                self.entries.push(e);
                assert(entries_view(self.entries@) =~= mid.push(e@));
            }
            if self.shed < u64::MAX {
                self.shed = self.shed + 1;
            }
        }
    }

    /// Hands out up to `max` of the oldest pending entries for export.
    pub fn take(&mut self, max: usize) -> (r: Vec<LogEntry>)
        ensures
            entries_view(r@) == old(self)@.entries.take(
                if max < old(self)@.entries.len() {
                    max as int
                } else {
                    old(self)@.entries.len() as int
                },
            ),
            final(self)@.entries == old(self)@.entries.skip(entries_view(r@).len() as int),
            final(self)@.capacity == old(self)@.capacity,
            final(self)@.drop_oldest == old(self)@.drop_oldest,
            final(self)@.shed == old(self)@.shed,
    {
        let n = if max < self.entries.len() {
            max
        } else {
            self.entries.len()
        };
        let mut out = self.entries.split_off(n);
        std::mem::swap(&mut self.entries, &mut out);
        assert(entries_view(out@) =~= old(self)@.entries.take(n as int));
        assert(entries_view(self.entries@) =~= old(self)@.entries.skip(n as int));
        out
    }
}

} // verus!
