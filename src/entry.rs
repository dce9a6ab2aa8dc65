//! Log entries and their mathematical model.
use vstd::prelude::*;

verus! {

/// A string as the logic sees it: its characters.
pub type Text = Seq<char>;

/// Severity of an entry; the order is that of `rank`.
#[derive(Clone, Copy, Debug, PartialEq, Eq, Structural)]
pub enum Severity {
    Default,
    Debug,
    Info,
    Notice,
    Warning,
    Error,
    Critical,
    Alert,
    Emergency,
}

impl Severity {
    pub open spec fn rank(self) -> int {
        match self {
            Severity::Default => 0,
            Severity::Debug => 100,
            Severity::Info => 200,
            Severity::Notice => 300,
            Severity::Warning => 400,
            Severity::Error => 500,
            Severity::Critical => 600,
            Severity::Alert => 700,
            Severity::Emergency => 800,
        }
    }

    /// The numeric level of the severity (`DEFAULT` is 0, `EMERGENCY` 800).
    pub fn code(&self) -> (r: i64)
        ensures
            r as int == self.rank(),
    {
        match self {
            Severity::Default => 0,
            Severity::Debug => 100,
            Severity::Info => 200,
            Severity::Notice => 300,
            Severity::Warning => 400,
            Severity::Error => 500,
            Severity::Critical => 600,
            Severity::Alert => 700,
            Severity::Emergency => 800,
        }
    }
}

/// A point in time: seconds and nanoseconds since the Unix epoch.
#[derive(Clone, Copy, Debug, PartialEq, Eq, Structural)]
pub struct Timestamp {
    pub seconds: i64,
    pub nanos: i32,
}

/// Strict order of timestamps: by seconds, then by nanoseconds.
pub open spec fn ts_lt(a: Timestamp, b: Timestamp) -> bool {
    a.seconds < b.seconds || (a.seconds == b.seconds && a.nanos < b.nanos)
}

impl Timestamp {
    pub fn new(seconds: i64, nanos: i32) -> (r: Timestamp)
        ensures
            r.seconds == seconds,
            r.nanos == nanos,
    {
        Timestamp { seconds, nanos }
    }

    /// Compares two timestamps: -1, 0 or 1.
    pub fn compare(&self, other: &Timestamp) -> (r: i8)
        ensures
            r == -1 <==> ts_lt(*self, *other),
            r == 0 <==> *self == *other,
            r == 1 <==> ts_lt(*other, *self),
    {
        if self.seconds < other.seconds {
            -1
        } else if self.seconds > other.seconds {
            1
        } else if self.nanos < other.nanos {
            -1
        } else if self.nanos > other.nanos {
            1
        } else {
            0
        }
    }
}

/// A key and its value, as in the label maps of entries and resources.
#[derive(Debug)]
pub struct Label {
    pub key: String,
    pub value: String,
}

impl View for Label {
    type V = (Text, Text);

    open spec fn view(&self) -> (Text, Text) {
        (self.key@, self.value@)
    }
}

impl Label {
    pub fn new(key: &str, value: &str) -> (r: Label)
        ensures
            r@ == (key@, value@),
    {
        Label { key: key.to_string(), value: value.to_string() }
    }

    pub fn duplicate(&self) -> (r: Label)
        ensures
            r@ == self@,
    {
        Label { key: self.key.clone(), value: self.value.clone() }
    }
}

pub open spec fn labels_view(v: Seq<Label>) -> Seq<(Text, Text)> {
    v.map_values(|l: Label| l@)
}

/// The value of the first label with key `k`, if any.
pub open spec fn label_lookup(labels: Seq<(Text, Text)>, k: Text) -> Option<Text>
    decreases labels.len(),
{
    if labels.len() == 0 {
        None
    } else if labels[0].0 == k {
        Some(labels[0].1)
    } else {
        label_lookup(labels.drop_first(), k)
    }
}

pub fn copy_labels(v: &Vec<Label>) -> (r: Vec<Label>)
    ensures
        labels_view(r@) == labels_view(v@),
{
    let mut r: Vec<Label> = Vec::new();
    let mut i: usize = 0;
    while i < v.len()
        invariant
            i <= v@.len(),
            labels_view(r@) == labels_view(v@.subrange(0, i as int)),
        decreases v@.len() - i,
    {
        r.push(v[i].duplicate());
        i = i + 1;
        assert(labels_view(v@.subrange(0, i as int)) =~= labels_view(
            v@.subrange(0, i as int - 1),
        ).push(v@[i as int - 1]@));
        assert(labels_view(r@) =~= labels_view(v@.subrange(0, i as int - 1)).push(
            v@[i as int - 1]@,
        ));
    }
    assert(v@.subrange(0, i as int) =~= v@);
    r
}

/// Finds the value of the first label with key `k`.
pub fn find_label<'a>(labels: &'a Vec<Label>, k: &String) -> (r: Option<&'a String>)
    ensures
        match r {
            Some(v) => label_lookup(labels_view(labels@), k@) == Some(v@),
            None => label_lookup(labels_view(labels@), k@) is None,
        },
{
    let mut i: usize = 0;
    assert(labels_view(labels@).subrange(0, labels@.len() as int) =~= labels_view(labels@));
    while i < labels.len()
        invariant
            i <= labels@.len(),
            label_lookup(labels_view(labels@), k@) == label_lookup(
                labels_view(labels@).subrange(i as int, labels@.len() as int),
                k@,
            ),
        decreases labels@.len() - i,
    {
        let ghost rest = labels_view(labels@).subrange(i as int, labels@.len() as int);
        assert(rest.drop_first() =~= labels_view(labels@).subrange(
            i as int + 1,
            labels@.len() as int,
        ));
        assert(rest[0] == labels@[i as int]@);
        if labels[i].key == *k {
            return Some(&labels[i].value);
        }
        i = i + 1;
    }
    None
}

/// The monitored resource that produced an entry: its type and labels.
#[derive(Debug)]
pub struct MonitoredResource {
    pub resource_type: String,
    pub labels: Vec<Label>,
}

pub struct ResourceModel {
    pub resource_type: Text,
    pub labels: Seq<(Text, Text)>,
}

impl View for MonitoredResource {
    type V = ResourceModel;

    open spec fn view(&self) -> ResourceModel {
        ResourceModel { resource_type: self.resource_type@, labels: labels_view(self.labels@) }
    }
}

impl MonitoredResource {
    pub fn new(resource_type: &str) -> (r: MonitoredResource)
        ensures
            r@.resource_type == resource_type@,
            r@.labels.len() == 0,
    {
        MonitoredResource { resource_type: resource_type.to_string(), labels: Vec::new() }
    }

    pub fn duplicate(&self) -> (r: MonitoredResource)
        ensures
            r@ == self@,
    {
        MonitoredResource {
            resource_type: self.resource_type.clone(),
            labels: copy_labels(&self.labels),
        }
    }
}

/// A scalar leaf of a structured payload.
#[derive(Debug)]
pub enum JsonScalar {
    Null,
    Bool(bool),
    Int(i64),
    Str(String),
}

pub enum ScalarModel {
    Null,
    Bool(bool),
    Int(int),
    Str(Text),
}

impl View for JsonScalar {
    type V = ScalarModel;

    open spec fn view(&self) -> ScalarModel {
        match self {
            JsonScalar::Null => ScalarModel::Null,
            JsonScalar::Bool(b) => ScalarModel::Bool(*b),
            JsonScalar::Int(n) => ScalarModel::Int(*n as int),
            JsonScalar::Str(s) => ScalarModel::Str(s@),
        }
    }
}

impl JsonScalar {
    pub fn duplicate(&self) -> (r: JsonScalar)
        ensures
            r@ == self@,
    {
        match self {
            JsonScalar::Null => JsonScalar::Null,
            JsonScalar::Bool(b) => JsonScalar::Bool(*b),
            JsonScalar::Int(n) => JsonScalar::Int(*n),
            JsonScalar::Str(s) => JsonScalar::Str(s.clone()),
        }
    }
}

/// One leaf of a structured payload, named by its dotted path (`foo.bar`).
#[derive(Debug)]
pub struct JsonField {
    pub path: String,
    pub value: JsonScalar,
}

impl View for JsonField {
    type V = (Text, ScalarModel);

    open spec fn view(&self) -> (Text, ScalarModel) {
        (self.path@, self.value@)
    }
}

pub open spec fn fields_view(v: Seq<JsonField>) -> Seq<(Text, ScalarModel)> {
    v.map_values(|f: JsonField| f@)
}

/// The value of the first leaf at path `p`, if any.
pub open spec fn field_lookup(fields: Seq<(Text, ScalarModel)>, p: Text) -> Option<ScalarModel>
    decreases fields.len(),
{
    if fields.len() == 0 {
        None
    } else if fields[0].0 == p {
        Some(fields[0].1)
    } else {
        field_lookup(fields.drop_first(), p)
    }
}

pub fn copy_fields(v: &Vec<JsonField>) -> (r: Vec<JsonField>)
    ensures
        fields_view(r@) == fields_view(v@),
{
    let mut r: Vec<JsonField> = Vec::new();
    let mut i: usize = 0;
    while i < v.len()
        invariant
            i <= v@.len(),
            fields_view(r@) == fields_view(v@.subrange(0, i as int)),
        decreases v@.len() - i,
    {
        r.push(JsonField { path: v[i].path.clone(), value: v[i].value.duplicate() });
        i = i + 1;
        assert(fields_view(v@.subrange(0, i as int)) =~= fields_view(
            v@.subrange(0, i as int - 1),
        ).push(v@[i as int - 1]@));
        assert(fields_view(r@) =~= fields_view(v@.subrange(0, i as int - 1)).push(
            v@[i as int - 1]@,
        ));
    }
    assert(v@.subrange(0, i as int) =~= v@);
    r
}

/// Finds the first leaf at path `p`.
pub fn find_field<'a>(fields: &'a Vec<JsonField>, p: &String) -> (r: Option<&'a JsonScalar>)
    ensures
        match r {
            Some(v) => field_lookup(fields_view(fields@), p@) == Some(v@),
            None => field_lookup(fields_view(fields@), p@) is None,
        },
{
    let mut i: usize = 0;
    assert(fields_view(fields@).subrange(0, fields@.len() as int) =~= fields_view(fields@));
    while i < fields.len()
        invariant
            i <= fields@.len(),
            field_lookup(fields_view(fields@), p@) == field_lookup(
                fields_view(fields@).subrange(i as int, fields@.len() as int),
                p@,
            ),
        decreases fields@.len() - i,
    {
        let ghost rest = fields_view(fields@).subrange(i as int, fields@.len() as int);
        assert(rest.drop_first() =~= fields_view(fields@).subrange(
            i as int + 1,
            fields@.len() as int,
        ));
        assert(rest[0] == fields@[i as int]@);
        if fields[i].path == *p {
            return Some(&fields[i].value);
        }
        i = i + 1;
    }
    None
}

/// The payload of an entry, in exactly one representation.
#[derive(Debug)]
pub enum Payload {
    Proto { type_url: String, value: Vec<u8> },
    Text(String),
    Json(Vec<JsonField>),
}

pub enum PayloadModel {
    Proto { type_url: Text, value: Seq<u8> },
    Text(Text),
    Json(Seq<(Text, ScalarModel)>),
}

impl View for Payload {
    type V = PayloadModel;

    open spec fn view(&self) -> PayloadModel {
        match self {
            Payload::Proto { type_url, value } => PayloadModel::Proto {
                type_url: type_url@,
                value: value@,
            },
            Payload::Text(s) => PayloadModel::Text(s@),
            Payload::Json(f) => PayloadModel::Json(fields_view(f@)),
        }
    }
}

/// A payload is well formed when a typed payload names its type and every
/// structured leaf has a non-empty path.
pub open spec fn payload_valid(p: PayloadModel) -> bool {
    &&& p is Proto ==> p->Proto_type_url.len() > 0
    &&& p is Json ==> forall|i: int|
        #![trigger p->Json_0[i]]
        0 <= i < p->Json_0.len() ==> p->Json_0[i].0.len() > 0
}

impl Payload {
    pub fn duplicate(&self) -> (r: Payload)
        ensures
            r@ == self@,
    {
        match self {
            Payload::Proto { type_url, value } => Payload::Proto {
                type_url: type_url.clone(),
                value: value.clone(),
            },
            Payload::Text(s) => Payload::Text(s.clone()),
            Payload::Json(f) => Payload::Json(copy_fields(f)),
        }
    }

    /// Whether the payload is well formed (see `payload_valid`).
    pub fn is_valid(&self) -> (r: bool)
        ensures
            r == payload_valid(self@),
    {
        match self {
            Payload::Proto { type_url, .. } => type_url.as_str().unicode_len() != 0,
            Payload::Text(_) => true,
            Payload::Json(f) => {
                let mut i: usize = 0;
                while i < f.len()
                    invariant
                        i <= f@.len(),
                        self@ == PayloadModel::Json(fields_view(f@)),
                        forall|j: int| #![trigger fields_view(f@)[j]] 0 <= j < i ==> fields_view(f@)[j].0.len() > 0,
                    decreases f@.len() - i,
                {
                    let n = f[i].path.as_str().unicode_len();
                    assert(n == f@[i as int].path@.len());
                    if n == 0 {
                        assert(fields_view(f@)[i as int] == f@[i as int]@);
                        let ghost g = fields_view(f@);
                        assert(self@->Json_0 == g);
                        assert(!(forall|j: int| #![trigger g[j]] 0 <= j < g.len() ==> g[j].0.len() > 0));
                        return false;
                    }
                    i = i + 1;
                }
                true
            },
        }
    }
}

/// Where in the producer's source an entry was written.
#[derive(Debug)]
pub struct LogEntrySourceLocation {
    pub file: String,
    pub line: i64,
    pub function: String,
}

pub struct SourceLocationModel {
    pub file: Text,
    pub line: int,
    pub function: Text,
}

impl View for LogEntrySourceLocation {
    type V = SourceLocationModel;

    open spec fn view(&self) -> SourceLocationModel {
        SourceLocationModel { file: self.file@, line: self.line as int, function: self.function@ }
    }
}

impl LogEntrySourceLocation {
    pub fn duplicate(&self) -> (r: LogEntrySourceLocation)
        ensures
            r@ == self@,
    {
        LogEntrySourceLocation {
            file: self.file.clone(),
            line: self.line,
            function: self.function.clone(),
        }
    }
}

/// The long-running operation an entry belongs to, if any.
#[derive(Debug)]
pub struct LogEntryOperation {
    pub id: String,
    pub producer: String,
    pub first: bool,
    pub last: bool,
}

pub struct OperationModel {
    pub id: Text,
    pub producer: Text,
    pub first: bool,
    pub last: bool,
}

impl View for LogEntryOperation {
    type V = OperationModel;

    open spec fn view(&self) -> OperationModel {
        OperationModel { id: self.id@, producer: self.producer@, first: self.first, last: self.last }
    }
}

impl LogEntryOperation {
    pub fn duplicate(&self) -> (r: LogEntryOperation)
        ensures
            r@ == self@,
    {
        LogEntryOperation {
            id: self.id.clone(),
            producer: self.producer.clone(),
            first: self.first,
            last: self.last,
        }
    }
}

/// One log record.
#[derive(Debug)]
pub struct LogEntry {
    pub log_name: String,
    pub resource: Option<MonitoredResource>,
    pub timestamp: Option<Timestamp>,
    pub receive_timestamp: Option<Timestamp>,
    pub severity: Severity,
    pub insert_id: String,
    pub labels: Vec<Label>,
    pub trace: String,
    pub span_id: String,
    pub trace_sampled: bool,
    pub source_location: Option<LogEntrySourceLocation>,
    pub operation: Option<LogEntryOperation>,
    pub payload: Option<Payload>,
}

pub struct EntryModel {
    pub log_name: Text,
    pub resource: Option<ResourceModel>,
    pub timestamp: Option<Timestamp>,
    pub receive_timestamp: Option<Timestamp>,
    pub severity: Severity,
    pub insert_id: Text,
    pub labels: Seq<(Text, Text)>,
    pub trace: Text,
    pub span_id: Text,
    pub trace_sampled: bool,
    pub source_location: Option<SourceLocationModel>,
    pub operation: Option<OperationModel>,
    pub payload: Option<PayloadModel>,
}

impl View for LogEntry {
    type V = EntryModel;

    open spec fn view(&self) -> EntryModel {
        EntryModel {
            log_name: self.log_name@,
            resource: match self.resource {
                Some(r) => Some(r@),
                None => None,
            },
            timestamp: self.timestamp,
            receive_timestamp: self.receive_timestamp,
            severity: self.severity,
            insert_id: self.insert_id@,
            labels: labels_view(self.labels@),
            trace: self.trace@,
            span_id: self.span_id@,
            trace_sampled: self.trace_sampled,
            source_location: match self.source_location {
                Some(l) => Some(l@),
                None => None,
            },
            operation: match self.operation {
                Some(o) => Some(o@),
                None => None,
            },
            payload: match self.payload {
                Some(p) => Some(p@),
                None => None,
            },
        }
    }
}

pub open spec fn entries_view(v: Seq<LogEntry>) -> Seq<EntryModel> {
    v.map_values(|e: LogEntry| e@)
}

impl LogEntry {
    /// An entry with every field empty and severity `Default`.
    pub fn new() -> (r: LogEntry)
        ensures
            r@.log_name.len() == 0,
            r@.resource is None,
            r@.timestamp is None,
            r@.receive_timestamp is None,
            r@.severity == Severity::Default,
            r@.insert_id.len() == 0,
            r@.labels.len() == 0,
            r@.trace.len() == 0,
            r@.span_id.len() == 0,
            !r@.trace_sampled,
            r@.source_location is None,
            r@.operation is None,
            r@.payload is None,
    {
        LogEntry {
            log_name: String::new(),
            resource: None,
            timestamp: None,
            receive_timestamp: None,
            severity: Severity::Default,
            insert_id: String::new(),
            labels: Vec::new(),
            trace: String::new(),
            span_id: String::new(),
            trace_sampled: false,
            source_location: None,
            operation: None,
            payload: None,
        }
    }

    pub fn duplicate(&self) -> (r: LogEntry)
        ensures
            r@ == self@,
    {
        LogEntry {
            log_name: self.log_name.clone(),
            resource: match &self.resource {
                Some(r) => Some(r.duplicate()),
                None => None,
            },
            timestamp: self.timestamp,
            receive_timestamp: self.receive_timestamp,
            severity: self.severity,
            insert_id: self.insert_id.clone(),
            labels: copy_labels(&self.labels),
            trace: self.trace.clone(),
            span_id: self.span_id.clone(),
            trace_sampled: self.trace_sampled,
            source_location: match &self.source_location {
                Some(l) => Some(l.duplicate()),
                None => None,
            },
            operation: match &self.operation {
                Some(o) => Some(o.duplicate()),
                None => None,
            },
            payload: match &self.payload {
                Some(p) => Some(p.duplicate()),
                None => None,
            },
        }
    }
}

pub fn copy_entries(v: &Vec<LogEntry>) -> (r: Vec<LogEntry>)
    ensures
        entries_view(r@) == entries_view(v@),
{
    let mut r: Vec<LogEntry> = Vec::new();
    let mut i: usize = 0;
    while i < v.len()
        invariant
            i <= v@.len(),
            entries_view(r@) == entries_view(v@.subrange(0, i as int)),
        decreases v@.len() - i,
    {
        r.push(v[i].duplicate());
        i = i + 1;
        assert(entries_view(v@.subrange(0, i as int)) =~= entries_view(
            v@.subrange(0, i as int - 1),
        ).push(v@[i as int - 1]@));
        assert(entries_view(r@) =~= entries_view(v@.subrange(0, i as int - 1)).push(
            v@[i as int - 1]@,
        ));
    }
    assert(v@.subrange(0, i as int) =~= v@);
    r
}

} // verus!
