use vstd::prelude::*;
use crate::reconstruct::{span_model, spans_model, lemma_spans_model_len, Elements, Span, SpanModel};
use crate::report::{Report, ReportPayload};

verus! {

broadcast use vstd::std_specs::vec::axiom_vec_index_decreases;

/// Every event inside a span: its own and those of all its descendants.
pub open spec fn total_events(m: SpanModel) -> nat
    decreases m,
{
    m.events.len() + child_events(m.spans)
}

/// The events of a sequence of sibling spans, their descendants included.
pub open spec fn child_events(v: Seq<SpanModel>) -> nat
    decreases v,
{
    if v.len() == 0 {
        0
    } else {
        child_events(v.drop_last()) + total_events(v.last())
    }
}

proof fn lemma_child_events_bound(v: Seq<SpanModel>, i: int)
    requires
        0 <= i < v.len(),
    ensures
        total_events(v[i]) <= child_events(v),
        child_events(v.take(i)) + total_events(v[i]) <= child_events(v),
    decreases v.len(),
{
    if i < v.len() - 1 {
        lemma_child_events_bound(v.drop_last(), i);
        assert(v.drop_last().take(i) =~= v.take(i));
    } else {
        assert(v.drop_last() =~= v.take(i));
    }
}

impl Span {
    /// The number of this span's own events and the number of events of all
    /// its descendants.
    pub fn count_events_rec(&self) -> (r: (usize, usize))
        requires
            total_events(span_model(*self)) <= usize::MAX,
        ensures
            r.0 == self.events@.len(),
            r.1 == child_events(spans_model(self.spans@)),
        decreases self,
    {
        let own_events = self.events.len();
        let ghost children = spans_model(self.spans@);
        proof {
            lemma_spans_model_len(self.spans@);
        }
        let mut child_count: usize = 0;
        let mut i: usize = 0;
        while i < self.spans.len()
            invariant
                i <= self.spans@.len(),
                children == spans_model(self.spans@),
                children.len() == self.spans@.len(),
                child_count == child_events(children.take(i as int)),
                child_events(children) <= usize::MAX,
            decreases self.spans.len() - i,
        {
            proof {
                lemma_spans_model_index(self.spans@, i as int);
                lemma_child_events_bound(children, i as int);
                assert(children.take(i + 1).drop_last() =~= children.take(i as int));
            }
            let (own, child) = self.spans[i].count_events_rec();
            child_count = child_count + own + child;
            i = i + 1;
        }
        proof {
            assert(children.take(i as int) =~= children);
        }
        (own_events, child_count)
    }
}

pub proof fn lemma_spans_model_index(v: Seq<Span>, i: int)
    requires
        0 <= i < v.len(),
    ensures
        spans_model(v)[i] == span_model(v[i]),
        spans_model(v).len() == v.len(),
    decreases v.len(),
{
    lemma_spans_model_len(v);
    if i < v.len() - 1 {
        lemma_spans_model_index(v.drop_last(), i);
    }
}

} // verus!

verus! {

/// One line of the textual summary of a span tree.
pub struct SpanLine {
    /// Depth of the span in the listing, in columns of the prefix.
    pub indent: usize,
    /// Nanoseconds from enter to exit.
    pub duration: u128,
    pub file: Option<String>,
    pub line: Option<u32>,
    pub own_events: usize,
    pub child_events: usize,
}

/// The duration of a span; a span whose exit precedes its enter lasts zero.
pub open spec fn span_duration(m: SpanModel) -> u128 {
    if m.end >= m.start {
        (m.end - m.start) as u128
    } else {
        0
    }
}

pub open spec fn line_of(m: SpanModel, indent: int) -> SpanLine {
    SpanLine {
        indent: indent as usize,
        duration: span_duration(m),
        file: match m.attrs {
            Some(a) => a.file,
            None => None,
        },
        line: match m.attrs {
            Some(a) => a.line,
            None => None,
        },
        own_events: m.events.len() as usize,
        child_events: child_events(m.spans) as usize,
    }
}

/// The summary lines of sibling spans: each span's line followed by the lines
/// of its children, `depth` levels deep at most.
pub open spec fn tree_lines(v: Seq<SpanModel>, depth: nat, indent: int) -> Seq<SpanLine>
    decreases v,
{
    if depth == 0 || v.len() == 0 {
        seq![]
    } else {
        tree_lines(v.drop_last(), depth, indent) + seq![line_of(v.last(), indent)] + tree_lines(
            v.last().spans,
            (depth - 1) as nat,
            indent + 2,
        )
    }
}

/// The summary lines of `spans` and of their descendants down to `depth` levels.
fn lines_of_spans(spans: &Vec<Span>, depth: usize, indent: usize) -> (r: Vec<SpanLine>)
    requires
        child_events(spans_model(spans@)) <= usize::MAX,
        indent + 2 * depth <= usize::MAX,
    ensures
        r@ == tree_lines(spans_model(spans@), depth as nat, indent as int),
    decreases spans,
{
    let ghost v = spans_model(spans@);
    proof {
        lemma_spans_model_len(spans@);
    }
    let mut out: Vec<SpanLine> = Vec::new();
    if depth == 0 {
        return out;
    }
    let mut i: usize = 0;
    proof {
        assert(v.take(0) =~= Seq::<SpanModel>::empty());
    }
    while i < spans.len()
        invariant
            i <= spans@.len(),
            v == spans_model(spans@),
            v.len() == spans@.len(),
            depth > 0,
            child_events(v) <= usize::MAX,
            indent + 2 * depth <= usize::MAX,
            out@ == tree_lines(v.take(i as int), depth as nat, indent as int),
        decreases spans.len() - i,
    {
        let s = &spans[i];
        proof {
            lemma_spans_model_index(spans@, i as int);
            lemma_child_events_bound(v, i as int);
            assert(v.take(i + 1).drop_last() =~= v.take(i as int));
            assert(v.take(i + 1).last() == v[i as int]);
        }
        let (own, child) = s.count_events_rec();
        let duration = if s.end >= s.start {
            s.end - s.start
        } else {
            0
        };
        let (file, line) = match &s.attrs {
            Some(a) => (
                match &a.file {
                    Some(f) => Some(f.clone()),
                    None => None,
                },
                a.line,
            ),
            None => (None, None),
        };
        let head = SpanLine { indent, duration, file, line, own_events: own, child_events: child };
        out.push(head);
        let mut below = lines_of_spans(&s.spans, depth - 1, indent + 2);
        out.append(&mut below);
        proof {
            assert(out@ =~= tree_lines(v.take(i + 1), depth as nat, indent as int));
        }
        i = i + 1;
    }
    proof {
        assert(v.take(i as int) =~= v);
    }
    out
}

impl Span {
    /// The summary lines of this span's children and their descendants, down to
    /// `depth` levels, the children's lines indented by `indent`.
    pub fn print_spans_rec(&self, depth: usize, indent: usize) -> (r: Vec<SpanLine>)
        requires
            total_events(span_model(*self)) <= usize::MAX,
            indent + 2 * depth <= usize::MAX,
        ensures
            r@ == tree_lines(span_model(*self).spans, depth as nat, indent as int),
    {
        lines_of_spans(&self.spans, depth, indent)
    }
}

/// The summary of a thread's root spans: each root at indent zero, then its
/// descendants down to `depth` levels below it.
pub fn render_spans(spans: &Vec<Span>, depth: usize) -> (r: Vec<SpanLine>)
    requires
        child_events(spans_model(spans@)) <= usize::MAX,
        2 * depth + 2 <= usize::MAX,
    ensures
        r@ == tree_lines(spans_model(spans@), depth as nat + 1, 0),
{
    lines_of_spans(spans, depth + 1, 0)
}

} // verus!

verus! {

/// Where an event was emitted: its source file and line, as text and number.
pub type LocationKey = (Option<Seq<char>>, Option<u32>);

pub open spec fn file_key(f: Option<String>) -> Option<Seq<char>> {
    match f {
        Some(s) => Some(s@),
        None => None,
    }
}

/// The location of a record, when it is an event.
pub open spec fn event_location(r: Report) -> Option<LocationKey> {
    match r.payload {
        ReportPayload::OnEvent { event } => Some(
            (file_key(event.metadata.file), event.metadata.line),
        ),
        _ => None,
    }
}

/// The event locations of `s`, in the order of their first event.
pub open spec fn location_order(s: Seq<Report>) -> Seq<LocationKey>
    decreases s.len(),
{
    if s.len() == 0 {
        seq![]
    } else {
        let o = location_order(s.drop_last());
        match event_location(s.last()) {
            Some(l) => if o.contains(l) {
                o
            } else {
                o.push(l)
            },
            None => o,
        }
    }
}

/// How many events of `s` were emitted at `l`.
pub open spec fn location_count(s: Seq<Report>, l: LocationKey) -> nat {
    s.filter(|r: Report| event_location(r) == Some(l)).len()
}

/// The number of events emitted at one source location.
pub struct LocationCount {
    pub file: Option<String>,
    pub line: Option<u32>,
    pub count: usize,
}

pub open spec fn count_key(c: LocationCount) -> LocationKey {
    (file_key(c.file), c.line)
}

fn same_file(a: &Option<String>, b: &Option<String>) -> (r: bool)
    ensures
        r == (file_key(*a) == file_key(*b)),
{
    match (a, b) {
        (Some(x), Some(y)) => *x == *y,
        (None, None) => true,
        _ => false,
    }
}

fn same_line(a: Option<u32>, b: Option<u32>) -> (r: bool)
    ensures
        r == (a == b),
{
    match (a, b) {
        (Some(x), Some(y)) => x == y,
        (None, None) => true,
        _ => false,
    }
}

/// The index of the count kept for location (`file`, `line`), or the length
/// of `out` when there is none.
fn find_location(out: &Vec<LocationCount>, file: &Option<String>, line: Option<u32>) -> (k: usize)
    ensures
        k <= out@.len(),
        forall|m: int| 0 <= m < k ==> count_key(#[trigger] out@[m]) != (file_key(*file), line),
        k < out@.len() ==> count_key(out@[k as int]) == (file_key(*file), line),
{
    let mut k: usize = 0;
    while k < out.len()
        invariant
            k <= out@.len(),
            forall|m: int| 0 <= m < k ==> count_key(#[trigger] out@[m]) != (file_key(*file), line),
        decreases out.len() - k,
    {
        if same_file(&out[k].file, file) && same_line(out[k].line, line) {
            return k;
        }
        k = k + 1;
    }
    k
}

proof fn lemma_location_count_last(s: Seq<Report>, l: LocationKey)
    requires
        s.len() > 0,
    ensures
        location_count(s, l) == location_count(s.drop_last(), l) + if event_location(s.last())
            == Some(l) {
            1nat
        } else {
            0nat
        },
{
    reveal_with_fuel(Seq::filter, 1);
}

proof fn lemma_location_count_bound(s: Seq<Report>, l: LocationKey)
    ensures
        location_count(s, l) <= s.len(),
    decreases s.len(),
{
    if s.len() > 0 {
        lemma_location_count_bound(s.drop_last(), l);
        lemma_location_count_last(s, l);
    } else {
        reveal_with_fuel(Seq::filter, 1);
    }
}

proof fn lemma_location_order_distinct(s: Seq<Report>)
    ensures
        location_order(s).no_duplicates(),
    decreases s.len(),
{
    if s.len() > 0 {
        lemma_location_order_distinct(s.drop_last());
    }
}

proof fn lemma_absent_location(s: Seq<Report>, l: LocationKey)
    requires
        !location_order(s).contains(l),
    ensures
        location_count(s, l) == 0,
    decreases s.len(),
{
    if s.len() == 0 {
        reveal_with_fuel(Seq::filter, 1);
    } else {
        let o = location_order(s.drop_last());
        if o.contains(l) {
            let j = choose|j: int| 0 <= j < o.len() && o[j] == l;
            assert(location_order(s)[j] == l);
        }
        if event_location(s.last()) == Some(l) && !o.contains(l) {
            assert(location_order(s)[o.len() as int] == l);
        }
        lemma_absent_location(s.drop_last(), l);
        lemma_location_count_last(s, l);
    }
}

impl Elements {
    /// Groups all events by source location and counts each group; locations
    /// come in the order of their first event.
    pub fn events_by_location(&self) -> (r: Vec<LocationCount>)
        ensures
            r@.len() == location_order(self.rpts@).len(),
            forall|k: int|
                0 <= k < r@.len() ==> count_key(#[trigger] r@[k]) == location_order(self.rpts@)[k]
                    && r@[k].count == location_count(self.rpts@, location_order(self.rpts@)[k]),
    {
        let ghost s = self.rpts@;
        let mut out: Vec<LocationCount> = Vec::new();
        let mut i: usize = 0;
        proof {
            assert(s.take(0) =~= Seq::<Report>::empty());
        }
        while i < self.rpts.len()
            invariant
                s == self.rpts@,
                i <= s.len(),
                out@.len() == location_order(s.take(i as int)).len(),
                forall|k: int|
                    0 <= k < out@.len() ==> count_key(#[trigger] out@[k]) == location_order(
                        s.take(i as int),
                    )[k] && out@[k].count == location_count(
                        s.take(i as int),
                        location_order(s.take(i as int))[k],
                    ),
            decreases s.len() - i,
        {
            let ghost prev = s.take(i as int);
            let ghost next = s.take(i + 1);
            proof {
                assert(next.drop_last() =~= prev);
                assert(next.last() == s[i as int]);
                lemma_location_order_distinct(prev);
            }
            let ghost old_out = out@;
            match &self.rpts[i].payload {
                ReportPayload::OnEvent { event } => {
                    let ghost l = (file_key(event.metadata.file), event.metadata.line);
                    let k = find_location(&out, &event.metadata.file, event.metadata.line);
                    if k < out.len() {
                        proof {
                            lemma_location_count_bound(prev, l);
                        }
                        let c = out[k].count;
                        out[k].count = c + 1;
                        proof {
                            assert(location_order(prev)[k as int] == l);
                            assert(location_order(prev).contains(l));
                            assert(location_order(next) == location_order(prev));
                            assert forall|m: int| 0 <= m < out@.len() implies count_key(
                                #[trigger] out@[m],
                            ) == location_order(next)[m] && out@[m].count == location_count(
                                next,
                                location_order(next)[m],
                            ) by {
                                assert(count_key(old_out[m]) == location_order(prev)[m]);
                                lemma_location_count_last(next, location_order(prev)[m]);
                            }
                        }
                    } else {
                        let file = match &event.metadata.file {
                            Some(f) => Some(f.clone()),
                            None => None,
                        };
                        out.push(LocationCount { file, line: event.metadata.line, count: 1 });
                        proof {
                            assert forall|j: int| 0 <= j < location_order(prev).len() implies location_order(prev)[j] != l by {
                                assert(count_key(old_out[j]) == location_order(prev)[j]);
                            }
                            assert(!location_order(prev).contains(l));
                            lemma_absent_location(prev, l);
                            assert forall|m: int| 0 <= m < out@.len() implies count_key(
                                #[trigger] out@[m],
                            ) == location_order(next)[m] && out@[m].count == location_count(
                                next,
                                location_order(next)[m],
                            ) by {
                                lemma_location_count_last(next, location_order(next)[m]);
                                if m < old_out.len() {
                                    assert(count_key(old_out[m]) == location_order(prev)[m]);
                                }
                            }
                        }
                    }
                },
                _ => {
                    proof {
                        assert forall|m: int| 0 <= m < out@.len() implies count_key(
                            #[trigger] out@[m],
                        ) == location_order(next)[m] && out@[m].count == location_count(
                            next,
                            location_order(next)[m],
                        ) by {
                            lemma_location_count_last(next, location_order(next)[m]);
                        }
                    }
                },
            }
            i = i + 1;
        }
        proof {
            assert(s.take(i as int) =~= s);
        }
        out
    }
}

} // verus!
