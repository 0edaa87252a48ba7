use vstd::prelude::*;

verus! {

/// Static description of a span or an event, as the host framework exposes it.
pub struct Metadata {
    pub name: String,
    pub target: String,
    pub file: Option<String>,
    pub line: Option<u32>,
}

/// One recorded field: its name and its rendered value.
pub struct Field {
    pub name: String,
    pub value: String,
}

/// A point-in-time log record with its metadata and field values.
pub struct EventData {
    pub metadata: Metadata,
    pub fields: Vec<Field>,
}

/// One lifecycle notification observed from the host framework.
pub enum ReportPayload {
    OnNewSpan { attrs: Metadata, id: u64 },
    OnRecord { span: u64, values: Vec<Field> },
    OnFollowsFrom { span: u64, follows: u64 },
    OnEvent { event: EventData },
    OnEnter { span: u64 },
    OnExit { span: u64 },
    OnIdChange { old: u64, new: u64 },
    OnClose { span: u64 },
}

/// A notification stamped with its tick and the identity of its thread.
pub struct Report {
    pub tick: u128,
    pub thread_id: u64,
    pub payload: ReportPayload,
}

} // verus!

verus! {

impl Metadata {
    /// An identical copy of this metadata.
    pub fn duplicate(&self) -> (r: Metadata)
        ensures
            r == *self,
    {
        let file = match &self.file {
            Some(f) => Some(f.clone()),
            None => None,
        };
        Metadata { name: self.name.clone(), target: self.target.clone(), file, line: self.line }
    }
}

} // verus!

verus! {

/// Two events hold the same metadata and the same fields.
pub open spec fn same_event(a: EventData, b: EventData) -> bool {
    a.metadata == b.metadata && a.fields@ == b.fields@
}

/// Two payloads are the same notification with the same contents.
pub open spec fn same_payload(a: ReportPayload, b: ReportPayload) -> bool {
    match (a, b) {
        (ReportPayload::OnRecord { span: s, values: v }, ReportPayload::OnRecord { span: t, values: w }) => s
            == t && v@ == w@,
        (ReportPayload::OnEvent { event: e }, ReportPayload::OnEvent { event: f }) => same_event(e, f),
        _ => a == b,
    }
}

fn copy_fields(v: &Vec<Field>) -> (r: Vec<Field>)
    ensures
        r@ == v@,
{
    let mut r: Vec<Field> = Vec::new();
    let mut i: usize = 0;
    while i < v.len()
        invariant
            i <= v@.len(),
            r@ == v@.take(i as int),
        decreases v.len() - i,
    {
        r.push(Field { name: v[i].name.clone(), value: v[i].value.clone() });
        proof {
            assert(r@ =~= v@.take(i + 1));
        }
        i = i + 1;
    }
    proof {
        assert(v@.take(i as int) =~= v@);
    }
    r
}

impl ReportPayload {
    /// A copy of this payload that owns all its text.
    pub fn to_owned(&self) -> (r: ReportPayload)
        ensures
            same_payload(r, *self),
    {
        match self {
            ReportPayload::OnNewSpan { attrs, id } => ReportPayload::OnNewSpan {
                attrs: attrs.duplicate(),
                id: *id,
            },
            ReportPayload::OnRecord { span, values } => ReportPayload::OnRecord {
                span: *span,
                values: copy_fields(values),
            },
            ReportPayload::OnFollowsFrom { span, follows } => ReportPayload::OnFollowsFrom {
                span: *span,
                follows: *follows,
            },
            ReportPayload::OnEvent { event } => ReportPayload::OnEvent {
                event: EventData {
                    metadata: event.metadata.duplicate(),
                    fields: copy_fields(&event.fields),
                },
            },
            ReportPayload::OnEnter { span } => ReportPayload::OnEnter { span: *span },
            ReportPayload::OnExit { span } => ReportPayload::OnExit { span: *span },
            ReportPayload::OnIdChange { old, new } => ReportPayload::OnIdChange {
                old: *old,
                new: *new,
            },
            ReportPayload::OnClose { span } => ReportPayload::OnClose { span: *span },
        }
    }
}

impl Report {
    /// A copy of this record that owns all its text.
    pub fn to_owned(&self) -> (r: Report)
        ensures
            r.tick == self.tick,
            r.thread_id == self.thread_id,
            same_payload(r.payload, self.payload),
    {
        Report { tick: self.tick, thread_id: self.thread_id, payload: self.payload.to_owned() }
    }
}

} // verus!
