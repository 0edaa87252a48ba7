use vstd::prelude::*;
use crate::analyze::{child_events, total_events};
use crate::reconstruct::{
    add_event, add_span, attr_table, empty_replay, reconstruct, replay, step, OpenModel,
    ReconstructError, ReplayModel, SpanModel, ThreadModel,
};
use crate::report::{Report, ReportPayload};

verus! {

pub open spec fn enter(tick: u128, thread_id: u64, span: u64) -> Report {
    Report { tick, thread_id, payload: ReportPayload::OnEnter { span } }
}

pub open spec fn exit(tick: u128, thread_id: u64, span: u64) -> Report {
    Report { tick, thread_id, payload: ReportPayload::OnExit { span } }
}

/// Exiting an outer span while an inner one is open is reported as a
/// mismatch naming both spans, never turned into a tree.
pub proof fn lemma_mismatched_exit(a: u64, b: u64, ticks: (u128, u128, u128), thread_id: u64)
    requires
        a != b,
    ensures
        reconstruct(
            seq![enter(ticks.0, thread_id, a), enter(ticks.1, thread_id, b), exit(ticks.2, thread_id, a)],
        ) == Err::<ThreadModel, ReconstructError>(
            ReconstructError::MismatchedExit { expected: b, found: a },
        ),
{
    let s = seq![enter(ticks.0, thread_id, a), enter(ticks.1, thread_id, b), exit(ticks.2, thread_id, a)];
    let t = attr_table(s);
    assert(s.drop_last().drop_last().drop_last() =~= Seq::<Report>::empty());
    assert(replay(s.drop_last().drop_last().drop_last(), t) == Ok::<_, ReconstructError>(empty_replay()));
    assert(replay(s.drop_last().drop_last(), t) is Ok);
    assert(replay(s.drop_last(), t) is Ok);
}

/// A stream that is well-formed on its own becomes malformed when one more
/// span is entered and never exited: the open span is reported, not closed.
pub proof fn lemma_unclosed_span(s: Seq<Report>, tick: u128, thread_id: u64, span: u64)
    requires
        reconstruct(s) is Ok,
    ensures
        reconstruct(s.push(enter(tick, thread_id, span))) == Err::<ThreadModel, ReconstructError>(
            ReconstructError::Unclosed { span },
        ),
{
    let s2 = s.push(enter(tick, thread_id, span));
    assert(s2.drop_last() =~= s);
    assert(attr_table(s2) == attr_table(s));
}

/// How many spans a forest holds, at every depth.
pub open spec fn forest_spans(v: Seq<SpanModel>) -> nat
    decreases v,
{
    if v.len() == 0 {
        0
    } else {
        forest_spans(v.drop_last()) + 1 + forest_spans(v.last().spans)
    }
}

/// How many records of `s` enter a span.
pub open spec fn count_enters(s: Seq<Report>) -> nat {
    s.filter(|r: Report| r.payload is OnEnter).len()
}

/// How many records of `s` are events.
pub open spec fn count_events(s: Seq<Report>) -> nat {
    s.filter(|r: Report| r.payload is OnEvent).len()
}

spec fn stack_spans(st: Seq<OpenModel>) -> nat
    decreases st.len(),
{
    if st.len() == 0 {
        0
    } else {
        stack_spans(st.drop_last()) + 1 + forest_spans(st.last().spans)
    }
}

spec fn stack_events(st: Seq<OpenModel>) -> nat
    decreases st.len(),
{
    if st.len() == 0 {
        0
    } else {
        stack_events(st.drop_last()) + st.last().events.len() + child_events(st.last().spans)
    }
}

spec fn spans_held(b: ReplayModel) -> nat {
    forest_spans(b.spans) + stack_spans(b.stack)
}

spec fn events_held(b: ReplayModel) -> nat {
    child_events(b.spans) + b.events.len() + stack_events(b.stack)
}

proof fn lemma_counts_last(s: Seq<Report>)
    requires
        s.len() > 0,
    ensures
        count_enters(s) == count_enters(s.drop_last()) + if s.last().payload is OnEnter {
            1nat
        } else {
            0nat
        },
        count_events(s) == count_events(s.drop_last()) + if s.last().payload is OnEvent {
            1nat
        } else {
            0nat
        },
{
    reveal_with_fuel(Seq::filter, 1);
}

proof fn lemma_forest_push(v: Seq<SpanModel>, x: SpanModel)
    ensures
        forest_spans(v.push(x)) == forest_spans(v) + 1 + forest_spans(x.spans),
        child_events(v.push(x)) == child_events(v) + x.events.len() + child_events(x.spans),
{
    assert(v.push(x).drop_last() =~= v);
    assert(total_events(x) == x.events.len() + child_events(x.spans));
}

proof fn lemma_stack_push(st: Seq<OpenModel>, o: OpenModel)
    ensures
        stack_spans(st.push(o)) == stack_spans(st) + 1 + forest_spans(o.spans),
        stack_events(st.push(o)) == stack_events(st) + o.events.len() + child_events(o.spans),
{
    assert(st.push(o).drop_last() =~= st);
}

proof fn lemma_add_event_counts(b: ReplayModel, e: crate::report::EventData)
    ensures
        spans_held(add_event(b, e)) == spans_held(b),
        events_held(add_event(b, e)) == events_held(b) + 1,
{
    if b.stack.len() > 0 {
        let top = b.stack.last();
        lemma_stack_push(b.stack.drop_last(), OpenModel { events: top.events.push(e), ..top });
        lemma_stack_push(b.stack.drop_last(), top);
        assert(b.stack.drop_last().push(top) =~= b.stack);
    }
}

proof fn lemma_add_span_counts(b: ReplayModel, x: SpanModel)
    ensures
        spans_held(add_span(b, x)) == spans_held(b) + 1 + forest_spans(x.spans),
        events_held(add_span(b, x)) == events_held(b) + x.events.len() + child_events(x.spans),
{
    if b.stack.len() > 0 {
        let top = b.stack.last();
        lemma_stack_push(b.stack.drop_last(), OpenModel { spans: top.spans.push(x), ..top });
        lemma_stack_push(b.stack.drop_last(), top);
        lemma_forest_push(top.spans, x);
        assert(b.stack.drop_last().push(top) =~= b.stack);
    } else {
        lemma_forest_push(b.spans, x);
    }
}

proof fn lemma_replay_counts(s: Seq<Report>, t: Map<u64, crate::report::Metadata>)
    requires
        replay(s, t) is Ok,
    ensures
        spans_held(replay(s, t)->Ok_0) == count_enters(s),
        events_held(replay(s, t)->Ok_0) == count_events(s),
    decreases s.len(),
{
    if s.len() == 0 {
        reveal_with_fuel(Seq::filter, 1);
    } else {
        let p = s.drop_last();
        let r = s.last();
        assert(replay(p, t) is Ok);
        lemma_replay_counts(p, t);
        lemma_counts_last(s);
        let b = replay(p, t)->Ok_0;
        assert(replay(s, t) == step(b, r, t));
        match r.payload {
            ReportPayload::OnEvent { event } => {
                lemma_add_event_counts(b, event);
            },
            ReportPayload::OnEnter { span } => {
                lemma_stack_push(b.stack, OpenModel { id: span, start: r.tick, spans: seq![], events: seq![] });
            },
            ReportPayload::OnExit { span } => {
                let top = b.stack.last();
                let closed = SpanModel {
                    start: top.start,
                    end: r.tick,
                    attrs: crate::reconstruct::lookup(t, span),
                    spans: top.spans,
                    events: top.events,
                };
                let popped = ReplayModel { stack: b.stack.drop_last(), ..b };
                lemma_add_span_counts(popped, closed);
                lemma_stack_push(b.stack.drop_last(), top);
                assert(b.stack.drop_last().push(top) =~= b.stack);
            },
            _ => {},
        }
    }
}

/// A well-nested stream rebuilds into a tree with one span for each enter
/// (each matched by its exit), and every event of the stream in it exactly
/// once: inside the spans or at the thread's top level.
pub proof fn lemma_well_nested_counts(s: Seq<Report>)
    requires
        reconstruct(s) is Ok,
    ensures
        forest_spans((reconstruct(s)->Ok_0).spans) == count_enters(s),
        child_events((reconstruct(s)->Ok_0).spans) + (reconstruct(s)->Ok_0).events.len()
            == count_events(s),
{
    lemma_replay_counts(s, attr_table(s));
}

/// The replay of `s` from the state `b` on, stopping at the first error.
pub open spec fn replay_from(b: ReplayModel, s: Seq<Report>, t: Map<u64, crate::report::Metadata>) -> Result<
    ReplayModel,
    ReconstructError,
>
    decreases s.len(),
{
    if s.len() == 0 {
        Ok(b)
    } else {
        match replay_from(b, s.drop_last(), t) {
            Ok(c) => step(c, s.last(), t),
            Err(e) => Err(e),
        }
    }
}

proof fn lemma_replay_is_from_empty(s: Seq<Report>, t: Map<u64, crate::report::Metadata>)
    ensures
        replay(s, t) == replay_from(empty_replay(), s, t),
    decreases s.len(),
{
    if s.len() > 0 {
        lemma_replay_is_from_empty(s.drop_last(), t);
    }
}

proof fn lemma_replay_from_concat(
    b: ReplayModel,
    p: Seq<Report>,
    q: Seq<Report>,
    t: Map<u64, crate::report::Metadata>,
)
    requires
        replay_from(b, p, t) is Ok,
    ensures
        replay_from(b, p + q, t) == replay_from(replay_from(b, p, t)->Ok_0, q, t),
    decreases q.len(),
{
    if q.len() == 0 {
        assert(p + q =~= p);
    } else {
        lemma_replay_from_concat(b, p, q.drop_last(), t);
        assert((p + q).drop_last() =~= p + q.drop_last());
        assert((p + q).last() == q.last());
    }
}

/// The state `b`, whose innermost open span takes in what a replay from
/// nothing produced (`e`) as its own.
pub open spec fn nest_into(b: ReplayModel, e: ReplayModel) -> ReplayModel {
    let top = b.stack.last();
    ReplayModel {
        stack: b.stack.drop_last().push(
            OpenModel { spans: top.spans + e.spans, events: top.events + e.events, ..top },
        ) + e.stack,
        spans: b.spans,
        events: b.events,
    }
}

proof fn lemma_step_nested(b: ReplayModel, e: ReplayModel, r: Report, t: Map<u64, crate::report::Metadata>)
    requires
        b.stack.len() > 0,
        step(e, r, t) is Ok,
    ensures
        step(nest_into(b, e), r, t) == Ok::<ReplayModel, ReconstructError>(
            nest_into(b, step(e, r, t)->Ok_0),
        ),
{
    let top = b.stack.last();
    let base = b.stack.drop_last();
    let merged = OpenModel { spans: top.spans + e.spans, events: top.events + e.events, ..top };
    let n = nest_into(b, e);
    match r.payload {
        ReportPayload::OnEvent { event } => {
            if e.stack.len() == 0 {
                assert(e.stack =~= Seq::<OpenModel>::empty());
                assert(n.stack =~= base.push(merged));
                assert(merged.events.push(event) =~= top.events + e.events.push(event));
                assert(add_event(n, event) =~= nest_into(b, add_event(e, event)));
            } else {
                let x = base.push(merged);
                assert(n.stack.drop_last() =~= x + e.stack.drop_last());
                assert(n.stack.last() == e.stack.last());
                let o = OpenModel { events: e.stack.last().events.push(event), ..e.stack.last() };
                assert((x + e.stack.drop_last()).push(o) =~= x + e.stack.drop_last().push(o));
                assert(add_event(n, event) =~= nest_into(b, add_event(e, event)));
            }
        },
        ReportPayload::OnEnter { span } => {
            let o = OpenModel { id: span, start: r.tick, spans: seq![], events: seq![] };
            assert(n.stack.push(o) =~= base.push(merged) + e.stack.push(o));
            assert(step(n, r, t)->Ok_0 =~= nest_into(b, step(e, r, t)->Ok_0));
        },
        ReportPayload::OnExit { span } => {
            let x = base.push(merged);
            let etop = e.stack.last();
            assert(n.stack.drop_last() =~= x + e.stack.drop_last());
            assert(n.stack.last() == etop);
            let closed = SpanModel {
                start: etop.start,
                end: r.tick,
                attrs: crate::reconstruct::lookup(t, span),
                spans: etop.spans,
                events: etop.events,
            };
            let epop = ReplayModel { stack: e.stack.drop_last(), ..e };
            let npop = ReplayModel { stack: n.stack.drop_last(), ..n };
            assert(npop =~= nest_into(b, epop));
            if e.stack.len() == 1 {
                assert(epop.stack =~= Seq::<OpenModel>::empty());
                assert(npop.stack =~= x);
                let m2 = OpenModel { spans: merged.spans.push(closed), ..merged };
                assert(merged.spans.push(closed) =~= top.spans + e.spans.push(closed));
                assert(add_span(npop, closed) =~= nest_into(b, add_span(epop, closed)));
            } else {
                let o = OpenModel { spans: epop.stack.last().spans.push(closed), ..epop.stack.last() };
                assert(npop.stack.drop_last() =~= x + epop.stack.drop_last());
                assert(npop.stack.last() == epop.stack.last());
                assert((x + epop.stack.drop_last()).push(o) =~= x + epop.stack.drop_last().push(o));
                assert(add_span(npop, closed) =~= nest_into(b, add_span(epop, closed)));
            }
        },
        _ => {},
    }
}

proof fn lemma_replay_nested(
    b: ReplayModel,
    x: Seq<Report>,
    t: Map<u64, crate::report::Metadata>,
)
    requires
        b.stack.len() > 0,
        replay_from(empty_replay(), x, t) is Ok,
    ensures
        replay_from(b, x, t) == Ok::<ReplayModel, ReconstructError>(
            nest_into(b, replay_from(empty_replay(), x, t)->Ok_0),
        ),
    decreases x.len(),
{
    if x.len() == 0 {
        let top = b.stack.last();
        assert(top.spans + Seq::<SpanModel>::empty() =~= top.spans);
        assert(top.events + Seq::<crate::report::EventData>::empty() =~= top.events);
        assert(b.stack.drop_last().push(top) =~= b.stack);
        assert(nest_into(b, empty_replay()) =~= b);
    } else {
        let p = x.drop_last();
        assert(replay_from(empty_replay(), p, t) is Ok);
        lemma_replay_nested(b, p, t);
        lemma_step_nested(b, replay_from(empty_replay(), p, t)->Ok_0, x.last(), t);
    }
}

/// Every span holds, in its own events and its descendants' events, exactly
/// the events of the stream between its enter and its exit: after a
/// well-nested prefix, a span entered around a well-nested body and then
/// exited becomes the last root span, with one event for each event of the body.
pub proof fn lemma_span_holds_its_events(
    pre: Seq<Report>,
    body: Seq<Report>,
    enter_tick: u128,
    exit_tick: u128,
    thread_id: u64,
    span: u64,
    t: Map<u64, crate::report::Metadata>,
)
    requires
        replay(pre, t) is Ok,
        (replay(pre, t)->Ok_0).stack.len() == 0,
        replay(body, t) is Ok,
        (replay(body, t)->Ok_0).stack.len() == 0,
        enter_tick <= exit_tick,
    ensures
        ({
            let s = pre + seq![enter(enter_tick, thread_id, span)] + body + seq![
                exit(exit_tick, thread_id, span),
            ];
            &&& replay(s, t) is Ok
            &&& (replay(s, t)->Ok_0).stack.len() == 0
            &&& (replay(s, t)->Ok_0).spans.len() == (replay(pre, t)->Ok_0).spans.len() + 1
            &&& total_events((replay(s, t)->Ok_0).spans.last()) == count_events(body)
        }),
{
    let en = seq![enter(enter_tick, thread_id, span)];
    let ex = seq![exit(exit_tick, thread_id, span)];
    let s = pre + en + body + ex;
    let e0 = empty_replay();
    lemma_replay_is_from_empty(pre, t);
    lemma_replay_is_from_empty(body, t);
    lemma_replay_is_from_empty(s, t);
    let b1 = replay(pre, t)->Ok_0;
    assert(en.drop_last() =~= Seq::<Report>::empty());
    assert(en.last() == enter(enter_tick, thread_id, span));
    assert(replay_from(b1, en.drop_last(), t) == Ok::<ReplayModel, ReconstructError>(b1));
    assert(replay_from(b1, en, t) == step(b1, en.last(), t));
    assert(replay_from(b1, en, t) is Ok);
    let b2 = replay_from(b1, en, t)->Ok_0;
    assert(b2.stack.len() == 1);
    lemma_replay_from_concat(e0, pre, en, t);
    assert(replay_from(e0, pre + en, t) == Ok::<ReplayModel, ReconstructError>(b2));
    lemma_replay_nested(b2, body, t);
    lemma_replay_from_concat(e0, pre + en, body, t);
    let b3 = replay_from(e0, pre + en + body, t)->Ok_0;
    let e = replay(body, t)->Ok_0;
    assert(b3 == nest_into(b2, e));
    assert(e.stack =~= Seq::<OpenModel>::empty());
    assert(b3.stack =~= b2.stack.drop_last().push(b3.stack.last()));
    assert(b3.stack.len() == 1);
    assert(b3.stack.last().id == span);
    assert(b3.stack.last().start == enter_tick);
    lemma_replay_from_concat(e0, pre + en + body, ex, t);
    assert(ex.drop_last() =~= Seq::<Report>::empty());
    assert(ex.last() == exit(exit_tick, thread_id, span));
    assert(replay_from(b3, ex.drop_last(), t) == Ok::<ReplayModel, ReconstructError>(b3));
    assert(replay_from(b3, ex, t) == step(b3, ex.last(), t));
    assert(replay_from(e0, s, t) == step(b3, ex.last(), t));
    let b4 = replay_from(e0, s, t)->Ok_0;
    lemma_replay_counts(body, t);
    assert(b4.spans.last().events == e.events);
    assert(b4.spans.last().spans == e.spans);
}

} // verus!
