use vstd::prelude::*;
use std::collections::HashMap;
use crate::report::{EventData, Metadata, Report, ReportPayload};

verus! {

broadcast use vstd::std_specs::hash::group_hash_axioms;

/// A reconstructed span: its bounds, its attributes and what happened inside it.
pub struct Span {
    pub start: u128,
    pub end: u128,
    pub attrs: Option<Metadata>,
    pub spans: Vec<Span>,
    pub events: Vec<EventData>,
}

/// The value of a reconstructed span, with its children as a sequence.
#[verifier::ext_equal]
pub ghost struct SpanModel {
    pub start: u128,
    pub end: u128,
    pub attrs: Option<Metadata>,
    pub spans: Seq<SpanModel>,
    pub events: Seq<EventData>,
}

pub open spec fn span_model(s: Span) -> SpanModel
    decreases s,
{
    SpanModel {
        start: s.start,
        end: s.end,
        attrs: s.attrs,
        spans: spans_model(s.spans@),
        events: s.events@,
    }
}

pub open spec fn spans_model(v: Seq<Span>) -> Seq<SpanModel>
    decreases v,
{
    if v.len() == 0 {
        seq![]
    } else {
        spans_model(v.drop_last()).push(span_model(v.last()))
    }
}

pub proof fn lemma_spans_model_push(v: Seq<Span>, s: Span)
    ensures
        spans_model(v.push(s)) == spans_model(v).push(span_model(s)),
{
    assert(v.push(s).drop_last() =~= v);
}

pub proof fn lemma_spans_model_len(v: Seq<Span>)
    ensures
        spans_model(v).len() == v.len(),
    decreases v.len(),
{
    if v.len() > 0 {
        lemma_spans_model_len(v.drop_last());
    }
}

/// Why one thread's notifications do not form a well-nested span tree.
pub enum ReconstructError {
    /// An exit arrived while no span was open.
    UnexpectedExit { span: u64 },
    /// An exit named another span than the innermost open one.
    MismatchedExit { expected: u64, found: u64 },
    /// The stream ended while this span, the innermost one, was still open.
    Unclosed { span: u64 },
    /// The exit of this span carries an earlier tick than its enter.
    ExitBeforeEnter { span: u64 },
}

/// The spans and events of one thread that lie outside every span.
pub struct ThreadSpans {
    pub spans: Vec<Span>,
    pub events: Vec<EventData>,
}

#[verifier::ext_equal]
pub ghost struct ThreadModel {
    pub spans: Seq<SpanModel>,
    pub events: Seq<EventData>,
}

impl ThreadSpans {
    pub open spec fn model(&self) -> ThreadModel {
        ThreadModel { spans: spans_model(self.spans@), events: self.events@ }
    }
}

/// A span that has been entered and not yet exited.
#[verifier::ext_equal]
pub ghost struct OpenModel {
    pub id: u64,
    pub start: u128,
    pub spans: Seq<SpanModel>,
    pub events: Seq<EventData>,
}

/// The replay state: the stack of open spans and what lies outside all of them.
#[verifier::ext_equal]
pub ghost struct ReplayModel {
    pub stack: Seq<OpenModel>,
    pub spans: Seq<SpanModel>,
    pub events: Seq<EventData>,
}

/// The attributes of each span id, from the last creation notice of that id.
pub open spec fn attr_table(s: Seq<Report>) -> Map<u64, Metadata>
    decreases s.len(),
{
    if s.len() == 0 {
        Map::empty()
    } else {
        let t = attr_table(s.drop_last());
        match s.last().payload {
            ReportPayload::OnNewSpan { attrs, id } => t.insert(id, attrs),
            _ => t,
        }
    }
}

pub open spec fn lookup(t: Map<u64, Metadata>, id: u64) -> Option<Metadata> {
    if t.contains_key(id) {
        Some(t[id])
    } else {
        None
    }
}

/// Attaches an event to the innermost open span, or to the thread.
pub open spec fn add_event(b: ReplayModel, e: EventData) -> ReplayModel {
    if b.stack.len() == 0 {
        ReplayModel { events: b.events.push(e), ..b }
    } else {
        let top = b.stack.last();
        ReplayModel {
            stack: b.stack.drop_last().push(OpenModel { events: top.events.push(e), ..top }),
            ..b
        }
    }
}

/// Attaches a closed span to the innermost open span, or to the thread.
pub open spec fn add_span(b: ReplayModel, s: SpanModel) -> ReplayModel {
    if b.stack.len() == 0 {
        ReplayModel { spans: b.spans.push(s), ..b }
    } else {
        let top = b.stack.last();
        ReplayModel {
            stack: b.stack.drop_last().push(OpenModel { spans: top.spans.push(s), ..top }),
            ..b
        }
    }
}

/// One notification applied to the replay state.
pub open spec fn step(b: ReplayModel, r: Report, t: Map<u64, Metadata>) -> Result<
    ReplayModel,
    ReconstructError,
> {
    match r.payload {
        ReportPayload::OnEvent { event } => Ok(add_event(b, event)),
        ReportPayload::OnEnter { span } => Ok(
            ReplayModel {
                stack: b.stack.push(
                    OpenModel { id: span, start: r.tick, spans: seq![], events: seq![] },
                ),
                ..b
            },
        ),
        ReportPayload::OnExit { span } => {
            if b.stack.len() == 0 {
                Err(ReconstructError::UnexpectedExit { span })
            } else if b.stack.last().id != span {
                Err(ReconstructError::MismatchedExit { expected: b.stack.last().id, found: span })
            } else if r.tick < b.stack.last().start {
                Err(ReconstructError::ExitBeforeEnter { span })
            } else {
                let top = b.stack.last();
                let closed = SpanModel {
                    start: top.start,
                    end: r.tick,
                    attrs: lookup(t, span),
                    spans: top.spans,
                    events: top.events,
                };
                Ok(add_span(ReplayModel { stack: b.stack.drop_last(), ..b }, closed))
            }
        },
        _ => Ok(b),
    }
}

pub open spec fn empty_replay() -> ReplayModel {
    ReplayModel { stack: seq![], spans: seq![], events: seq![] }
}

/// The replay of a whole stream, stopping at the first error.
pub open spec fn replay(s: Seq<Report>, t: Map<u64, Metadata>) -> Result<
    ReplayModel,
    ReconstructError,
>
    decreases s.len(),
{
    if s.len() == 0 {
        Ok(empty_replay())
    } else {
        match replay(s.drop_last(), t) {
            Ok(b) => step(b, s.last(), t),
            Err(e) => Err(e),
        }
    }
}

/// The span tree of one thread's stream, or why it is malformed.
pub open spec fn reconstruct(s: Seq<Report>) -> Result<ThreadModel, ReconstructError> {
    match replay(s, attr_table(s)) {
        Ok(b) => if b.stack.len() > 0 {
            Err(ReconstructError::Unclosed { span: b.stack.last().id })
        } else {
            Ok(ThreadModel { spans: b.spans, events: b.events })
        },
        Err(e) => Err(e),
    }
}

} // verus!

verus! {

/// The records of one capture, in file order.
pub struct Elements {
    pub rpts: Vec<Report>,
}

/// A span that has been entered and not yet exited, while the tree is built.
struct OpenSpan {
    id: u64,
    start: u128,
    spans: Vec<Span>,
    events: Vec<EventData>,
}

spec fn open_model(o: OpenSpan) -> OpenModel {
    OpenModel { id: o.id, start: o.start, spans: spans_model(o.spans@), events: o.events@ }
}

spec fn replay_view(stack: Seq<OpenSpan>, spans: Seq<Span>, events: Seq<EventData>) -> ReplayModel {
    ReplayModel {
        stack: stack.map_values(|o: OpenSpan| open_model(o)),
        spans: spans_model(spans),
        events,
    }
}

pub open spec fn thread_result(r: Result<ThreadSpans, ReconstructError>) -> Result<
    ThreadModel,
    ReconstructError,
> {
    match r {
        Ok(t) => Ok(t.model()),
        Err(e) => Err(e),
    }
}

proof fn lemma_replay_error_persists(
    s: Seq<Report>,
    t: Map<u64, Metadata>,
    k: int,
    e: ReconstructError,
)
    requires
        0 <= k <= s.len(),
        replay(s.take(k), t) == Err::<ReplayModel, ReconstructError>(e),
    ensures
        replay(s, t) == Err::<ReplayModel, ReconstructError>(e),
        t == attr_table(s) ==> reconstruct(s) == Err::<ThreadModel, ReconstructError>(e),
    decreases s.len() - k,
{
    if k < s.len() {
        assert(s.take(k + 1).drop_last() =~= s.take(k));
        lemma_replay_error_persists(s, t, k + 1, e);
    } else {
        assert(s.take(k) =~= s);
    }
}

/// The records of `v` in reverse order, so that popping yields them in order.
fn reversed(v: Vec<Report>) -> (r: Vec<Report>)
    ensures
        r@.len() == v@.len(),
        forall|j: int| 0 <= j < r@.len() ==> r@[j] == v@[v@.len() - 1 - j],
{
    let ghost s = v@;
    let mut rest = v;
    let mut r: Vec<Report> = Vec::new();
    while rest.len() > 0
        invariant
            rest@ == s.take(rest@.len() as int),
            r@.len() + rest@.len() == s.len(),
            forall|j: int| 0 <= j < r@.len() ==> r@[j] == s[s.len() - 1 - j],
        decreases rest.len(),
    {
        let x = rest.pop().unwrap();
        r.push(x);
        proof {
            assert(rest@ =~= s.take(rest@.len() as int));
        }
    }
    r
}

/// The attributes of every span created in `rpts`, the last creation winning.
fn attr_map(rpts: &Vec<Report>) -> (m: HashMap<u64, Metadata>)
    ensures
        m@ == attr_table(rpts@),
{
    let mut m: HashMap<u64, Metadata> = HashMap::new();
    let mut i: usize = 0;
    while i < rpts.len()
        invariant
            i <= rpts.len(),
            m@ == attr_table(rpts@.take(i as int)),
        decreases rpts.len() - i,
    {
        proof {
            assert(rpts@.take(i + 1).drop_last() =~= rpts@.take(i as int));
        }
        match &rpts[i].payload {
            ReportPayload::OnNewSpan { attrs, id } => {
                m.insert(*id, attrs.duplicate());
            },
            _ => {},
        }
        i = i + 1;
    }
    proof {
        assert(rpts@.take(i as int) =~= rpts@);
    }
    m
}

} // verus!

verus! {

impl Elements {
    /// Rebuilds the span tree of one thread's records: an enter opens a span
    /// inside the innermost open one, an event joins the innermost open span,
    /// an exit must close the innermost open span.
    pub fn spanner(self) -> (r: Result<ThreadSpans, ReconstructError>)
        ensures
            thread_result(r) == reconstruct(self.rpts@),
    {
        let table = attr_map(&self.rpts);
        let ghost s = self.rpts@;
        let ghost t = attr_table(s);
        let mut pending = reversed(self.rpts);
        let mut stack: Vec<OpenSpan> = Vec::new();
        let mut spans: Vec<Span> = Vec::new();
        let mut events: Vec<EventData> = Vec::new();
        let ghost mut i: int = 0;
        proof {
            assert(replay_view(stack@, spans@, events@) =~= empty_replay());
            assert(s.take(0) =~= Seq::<Report>::empty());
        }
        while pending.len() > 0
            invariant
                s == self.rpts@,
                0 <= i <= s.len(),
                pending@.len() == s.len() - i,
                forall|j: int| 0 <= j < pending@.len() ==> pending@[j] == s[s.len() - 1 - j],
                table@ == t,
                t == attr_table(s),
                replay(s.take(i), t) == Ok::<ReplayModel, ReconstructError>(
                    replay_view(stack@, spans@, events@),
                ),
            decreases pending.len(),
        {
            let r = pending.pop().unwrap();
            let ghost before = replay_view(stack@, spans@, events@);
            proof {
                assert(r == s[i]);
                assert(s.take(i + 1).drop_last() =~= s.take(i));
                assert(s.take(i + 1).last() == s[i]);
            }
            let Report { tick, payload, .. } = r;
            match payload {
                ReportPayload::OnEvent { event } => {
                    if stack.len() == 0 {
                        events.push(event);
                    } else {
                        let mut top = stack.pop().unwrap();
                        top.events.push(event);
                        stack.push(top);
                    }
                    proof {
                        assert(replay_view(stack@, spans@, events@) =~= add_event(before, event));
                    }
                },
                ReportPayload::OnEnter { span } => {
                    stack.push(OpenSpan { id: span, start: tick, spans: Vec::new(), events: Vec::new() });
                    proof {
                        assert(spans_model(Seq::<Span>::empty()) =~= Seq::<SpanModel>::empty());
                        assert(replay_view(stack@, spans@, events@) == step(before, s[i], t)->Ok_0);
                    }
                },
                ReportPayload::OnExit { span } => {
                    if stack.len() == 0 {
                        proof {
                            lemma_replay_error_persists(s, t, i + 1, ReconstructError::UnexpectedExit { span });
                        }
                        return Err(ReconstructError::UnexpectedExit { span });
                    }
                    let top = stack.pop().unwrap();
                    if top.id != span {
                        proof {
                            lemma_replay_error_persists(
                                s, t, i + 1,
                                ReconstructError::MismatchedExit { expected: top.id, found: span },
                            );
                        }
                        return Err(ReconstructError::MismatchedExit { expected: top.id, found: span });
                    }
                    if tick < top.start {
                        proof {
                            lemma_replay_error_persists(s, t, i + 1, ReconstructError::ExitBeforeEnter { span });
                        }
                        return Err(ReconstructError::ExitBeforeEnter { span });
                    }
                    let attrs = match table.get(&span) {
                        Some(m) => Some(m.duplicate()),
                        None => None,
                    };
                    let closed = Span {
                        start: top.start,
                        end: tick,
                        attrs,
                        spans: top.spans,
                        events: top.events,
                    };
                    let ghost popped = replay_view(stack@, spans@, events@);
                    proof {
                        assert(popped =~= ReplayModel { stack: before.stack.drop_last(), ..before });
                        assert(open_model(top) == before.stack.last());
                        assert(attrs == lookup(t, span));
                        assert(span_model(closed) =~= SpanModel {
                            start: top.start,
                            end: tick,
                            attrs: lookup(t, span),
                            spans: spans_model(top.spans@),
                            events: top.events@,
                        });
                    }
                    if stack.len() == 0 {
                        let ghost root_spans = spans@;
                        spans.push(closed);
                        proof {
                            lemma_spans_model_push(root_spans, closed);
                        }
                    } else {
                        let mut parent = stack.pop().unwrap();
                        let ghost parent_spans = parent.spans@;
                        parent.spans.push(closed);
                        proof {
                            lemma_spans_model_push(parent_spans, closed);
                        }
                        stack.push(parent);
                    }
                    proof {
                        assert(replay_view(stack@, spans@, events@) =~= add_span(popped, span_model(closed)));
                    }
                },
                _ => {
                    assert(step(before, s[i], t) == Ok::<ReplayModel, ReconstructError>(before));
                },
            }
            proof {
                i = i + 1;
            }
        }
        proof {
            assert(s.take(i) =~= s);
        }
        if stack.len() > 0 {
            let last = stack.len() - 1;
            return Err(ReconstructError::Unclosed { span: stack[last].id });
        }
        Ok(ThreadSpans { spans, events })
    }
}

} // verus!

verus! {

/// The thread identities of `s`, in the order of their first record.
pub open spec fn thread_order(s: Seq<Report>) -> Seq<u64>
    decreases s.len(),
{
    if s.len() == 0 {
        seq![]
    } else {
        let o = thread_order(s.drop_last());
        if o.contains(s.last().thread_id) {
            o
        } else {
            o.push(s.last().thread_id)
        }
    }
}

/// The records of `s` that come from thread `tid`, in their order.
pub open spec fn records_of(s: Seq<Report>, tid: u64) -> Seq<Report> {
    s.filter(|r: Report| r.thread_id == tid)
}

impl Elements {
    /// Partitions the records by thread, keeping each thread's own order;
    /// threads come in the order of their first record.
    pub fn split_by_thread_id(self) -> (r: Vec<(u64, Elements)>)
        ensures
            r@.len() == thread_order(self.rpts@).len(),
            forall|k: int|
                0 <= k < r@.len() ==> r@[k].0 == thread_order(self.rpts@)[k] && r@[k].1.rpts@
                    == records_of(self.rpts@, r@[k].0),
    {
        let ghost s = self.rpts@;
        let mut pending = reversed(self.rpts);
        let mut groups: Vec<(u64, Elements)> = Vec::new();
        let ghost mut i: int = 0;
        proof {
            assert(s.take(0) =~= Seq::<Report>::empty());
        }
        while pending.len() > 0
            invariant
                s == self.rpts@,
                0 <= i <= s.len(),
                pending@.len() == s.len() - i,
                forall|j: int| 0 <= j < pending@.len() ==> pending@[j] == s[s.len() - 1 - j],
                groups@.len() == thread_order(s.take(i)).len(),
                forall|k: int|
                    0 <= k < groups@.len() ==> (#[trigger] groups@[k]).0 == thread_order(s.take(i))[k]
                        && groups@[k].1.rpts@ == records_of(s.take(i), groups@[k].0),
            decreases pending.len(),
        {
            let r = pending.pop().unwrap();
            let ghost prev = s.take(i);
            let ghost next = s.take(i + 1);
            proof {
                assert(r == s[i]);
                assert(next.drop_last() =~= prev);
            }
            let tid = r.thread_id;
            let mut k: usize = 0;
            while k < groups.len() && groups[k].0 != tid
                invariant
                    k <= groups@.len(),
                    forall|m: int| 0 <= m < k ==> groups@[m].0 != tid,
                    groups@.len() == thread_order(prev).len(),
                    forall|m: int|
                        0 <= m < groups@.len() ==> (#[trigger] groups@[m]).0 == thread_order(prev)[m]
                            && groups@[m].1.rpts@ == records_of(prev, groups@[m].0),
                decreases groups.len() - k,
            {
                k = k + 1;
            }
            let ghost old_groups = groups@;
            if k < groups.len() {
                groups[k].1.rpts.push(r);
                proof {
                    assert(thread_order(prev)[k as int] == tid);
                    assert(thread_order(prev).contains(tid));
                    assert(thread_order(next) == thread_order(prev));
                    assert(next.last() == r);
                    lemma_thread_order_distinct(prev);
                    assert forall|m: int| 0 <= m < groups@.len() implies groups@[m].0 == thread_order(next)[m]
                        && groups@[m].1.rpts@ == records_of(next, groups@[m].0) by {
                        lemma_records_of_last(next, groups@[m].0);
                        if m == k {
                            assert(groups@[m].1.rpts@ =~= old_groups[m].1.rpts@.push(r));
                        } else {
                            assert(groups@[m] == old_groups[m]);
                            assert(old_groups[m].0 != tid);
                        }
                    }
                }
            } else {
                let mut first: Vec<Report> = Vec::new();
                first.push(r);
                groups.push((tid, Elements { rpts: first }));
                proof {
                    assert forall|j: int| 0 <= j < thread_order(prev).len() implies thread_order(prev)[j] != tid by {
                        assert(old_groups[j].0 == thread_order(prev)[j]);
                    }
                    assert(!thread_order(prev).contains(tid));
                    assert forall|m: int| 0 <= m < groups@.len() implies groups@[m].0 == thread_order(next)[m]
                        && groups@[m].1.rpts@ == records_of(next, groups@[m].0) by {
                        lemma_records_of_last(next, groups@[m].0);
                        if m < old_groups.len() {
                            assert(old_groups[m].1.rpts@ == records_of(prev, old_groups[m].0));
                        } else {
                            lemma_no_records_of(prev, tid);
                            assert(groups@[m].1.rpts@ =~= records_of(prev, tid).push(r));
                        }
                    }
                }
            }
            proof {
                assert(forall|m: int| 0 <= m < groups@.len() ==> (#[trigger] groups@[m]).0 == thread_order(next)[m]
                    && groups@[m].1.rpts@ == records_of(next, groups@[m].0));
                i = i + 1;
                assert(s.take(i) == next);
            }
        }
        proof {
            assert(s.take(i) =~= s);
        }
        groups
    }
}

proof fn lemma_thread_order_distinct(s: Seq<Report>)
    ensures
        thread_order(s).no_duplicates(),
    decreases s.len(),
{
    if s.len() > 0 {
        lemma_thread_order_distinct(s.drop_last());
    }
}

proof fn lemma_records_of_last(s: Seq<Report>, tid: u64)
    requires
        s.len() > 0,
    ensures
        records_of(s, tid) == if s.last().thread_id == tid {
            records_of(s.drop_last(), tid).push(s.last())
        } else {
            records_of(s.drop_last(), tid)
        },
{
    reveal_with_fuel(Seq::filter, 1);
}

/// A thread that has not appeared yet has no records.
proof fn lemma_no_records_of(s: Seq<Report>, tid: u64)
    requires
        !thread_order(s).contains(tid),
    ensures
        records_of(s, tid) =~= Seq::<Report>::empty(),
    decreases s.len(),
{
    if s.len() > 0 {
        let o = thread_order(s.drop_last());
        if o.contains(tid) {
            let j = choose|j: int| 0 <= j < o.len() && o[j] == tid;
            assert(thread_order(s)[j] == tid);
        }
        if s.last().thread_id == tid {
            if !o.contains(tid) {
                assert(thread_order(s)[o.len() as int] == tid);
            }
        }
        lemma_no_records_of(s.drop_last(), tid);
        lemma_records_of_last(s, tid);
    }
}

} // verus!
