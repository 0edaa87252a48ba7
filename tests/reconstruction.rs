use tracing_report::{
    render_spans, Elements, EventData, Metadata, ReconstructError, Report, ReportPayload,
};

fn meta(file: &str, line: u32) -> Metadata {
    Metadata {
        name: "n".to_string(),
        target: "t".to_string(),
        file: Some(file.to_string()),
        line: Some(line),
    }
}

fn rec(tick: u128, thread_id: u64, payload: ReportPayload) -> Report {
    Report { tick, thread_id, payload }
}

fn new_span(tick: u128, tid: u64, id: u64, file: &str, line: u32) -> Report {
    rec(tick, tid, ReportPayload::OnNewSpan { attrs: meta(file, line), id })
}

fn enter(tick: u128, tid: u64, span: u64) -> Report {
    rec(tick, tid, ReportPayload::OnEnter { span })
}

fn exit(tick: u128, tid: u64, span: u64) -> Report {
    rec(tick, tid, ReportPayload::OnExit { span })
}

fn event(tick: u128, tid: u64, file: &str, line: u32) -> Report {
    rec(tick, tid, ReportPayload::OnEvent { event: EventData { metadata: meta(file, line), fields: vec![] } })
}

#[test]
fn end_to_end_single_span() {
    let rpts = vec![
        new_span(50, 7, 1, "f", 10),
        enter(100, 7, 1),
        event(150, 7, "f", 11),
        exit(200, 7, 1),
    ];
    let threads = Elements { rpts }.split_by_thread_id();
    assert_eq!(threads.len(), 1);
    let (tid, elements) = threads.into_iter().next().unwrap();
    assert_eq!(tid, 7);
    let tl = match elements.spanner() {
        Ok(t) => t,
        Err(_) => panic!("well-nested stream"),
    };
    assert_eq!(tl.spans.len(), 1);
    assert_eq!(tl.events.len(), 0);
    let span = &tl.spans[0];
    assert_eq!(span.start, 100);
    assert_eq!(span.end, 200);
    assert_eq!(span.count_events_rec(), (1, 0));
    let attrs = span.attrs.as_ref().unwrap();
    assert_eq!(attrs.file.as_deref(), Some("f"));
    assert_eq!(attrs.line, Some(10));
}

#[test]
fn mismatched_exit_is_reported() {
    let rpts = vec![enter(1, 1, 10), enter(2, 1, 20), exit(3, 1, 10)];
    match (Elements { rpts }).spanner() {
        Err(ReconstructError::MismatchedExit { expected, found }) => {
            assert_eq!(expected, 20);
            assert_eq!(found, 10);
        },
        _ => panic!("expected a mismatch"),
    }
}

#[test]
fn unclosed_span_is_reported() {
    let rpts = vec![enter(1, 1, 10), event(2, 1, "a", 1), enter(3, 1, 11), exit(4, 1, 11)];
    match (Elements { rpts }).spanner() {
        Err(ReconstructError::Unclosed { span }) => assert_eq!(span, 10),
        _ => panic!("expected an unclosed span"),
    }
}

#[test]
fn exit_without_enter_is_reported() {
    let rpts = vec![event(1, 1, "a", 1), exit(2, 1, 5)];
    match (Elements { rpts }).spanner() {
        Err(ReconstructError::UnexpectedExit { span }) => assert_eq!(span, 5),
        _ => panic!("expected an unexpected exit"),
    }
}

#[test]
fn exit_before_enter_is_reported() {
    let rpts = vec![enter(10, 1, 5), exit(9, 1, 5)];
    match (Elements { rpts }).spanner() {
        Err(ReconstructError::ExitBeforeEnter { span }) => assert_eq!(span, 5),
        _ => panic!("expected a backwards span"),
    }
}

#[test]
fn nested_spans_and_event_counts() {
    // a { e; b { e; e; c { e } }; e }  and one event outside every span
    let rpts = vec![
        event(0, 1, "x", 1),
        enter(1, 1, 1),
        event(2, 1, "x", 2),
        enter(3, 1, 2),
        event(4, 1, "x", 3),
        event(5, 1, "x", 3),
        enter(6, 1, 3),
        event(7, 1, "x", 4),
        exit(8, 1, 3),
        exit(9, 1, 2),
        rec(10, 1, ReportPayload::OnClose { span: 3 }),
        event(11, 1, "x", 5),
        exit(12, 1, 1),
    ];
    let tl = match (Elements { rpts }).spanner() {
        Ok(t) => t,
        Err(_) => panic!("well-nested stream"),
    };
    assert_eq!(tl.events.len(), 1);
    assert_eq!(tl.spans.len(), 1);
    let a = &tl.spans[0];
    assert_eq!(a.count_events_rec(), (2, 3));
    assert_eq!(a.spans.len(), 1);
    let b = &a.spans[0];
    assert_eq!(b.count_events_rec(), (2, 1));
    assert_eq!((b.start, b.end), (3, 9));
    let c = &b.spans[0];
    assert_eq!(c.count_events_rec(), (1, 0));
    assert!(c.attrs.is_none());
}

#[test]
fn last_creation_of_an_id_gives_the_attributes() {
    let rpts = vec![
        new_span(0, 1, 4, "old", 1),
        new_span(1, 1, 4, "new", 2),
        enter(2, 1, 4),
        exit(3, 1, 4),
    ];
    let tl = match (Elements { rpts }).spanner() {
        Ok(t) => t,
        Err(_) => panic!("well-nested stream"),
    };
    let attrs = tl.spans[0].attrs.as_ref().unwrap();
    assert_eq!(attrs.file.as_deref(), Some("new"));
}

#[test]
fn threads_are_split_in_first_seen_order() {
    let rpts = vec![
        enter(1, 2, 1),
        enter(2, 1, 1),
        exit(3, 2, 1),
        event(4, 3, "a", 1),
        exit(5, 1, 1),
    ];
    let threads = Elements { rpts }.split_by_thread_id();
    let ids: Vec<u64> = threads.iter().map(|(t, _)| *t).collect();
    assert_eq!(ids, vec![2, 1, 3]);
    let ticks: Vec<u128> = threads[0].1.rpts.iter().map(|r| r.tick).collect();
    assert_eq!(ticks, vec![1, 3]);
    let ticks: Vec<u128> = threads[1].1.rpts.iter().map(|r| r.tick).collect();
    assert_eq!(ticks, vec![2, 5]);
    // one thread's error leaves the others intact
    let mut results = Vec::new();
    for (_, e) in threads {
        results.push(e.spanner().is_ok());
    }
    assert_eq!(results, vec![true, true, true]);
}

#[test]
fn events_are_counted_by_location() {
    let rpts = vec![
        event(1, 1, "a", 1),
        event(2, 2, "b", 7),
        enter(3, 1, 1),
        event(4, 1, "a", 1),
        exit(5, 1, 1),
        event(6, 3, "a", 2),
    ];
    let counts = Elements { rpts }.events_by_location();
    let got: Vec<(String, u32, usize)> = counts
        .iter()
        .map(|c| (c.file.clone().unwrap(), c.line.unwrap(), c.count))
        .collect();
    assert_eq!(
        got,
        vec![("a".to_string(), 1, 2), ("b".to_string(), 7, 1), ("a".to_string(), 2, 1)]
    );
}

#[test]
fn rendering_is_depth_bounded() {
    // four spans nested in a chain
    let mut rpts = vec![new_span(0, 1, 1, "r", 1)];
    for id in 1..=4u64 {
        rpts.push(enter(id as u128 * 10, 1, id));
    }
    for id in (1..=4u64).rev() {
        rpts.push(exit(100 - id as u128, 1, id));
    }
    let tl = match (Elements { rpts }).spanner() {
        Ok(t) => t,
        Err(_) => panic!("well-nested stream"),
    };
    let all = render_spans(&tl.spans, 4);
    assert_eq!(all.len(), 4);
    let indents: Vec<usize> = all.iter().map(|l| l.indent).collect();
    assert_eq!(indents, vec![0, 2, 4, 6]);
    assert_eq!(all[0].duration, 99 - 10);
    assert_eq!(all[0].file.as_deref(), Some("r"));
    assert_eq!(all[0].line, Some(1));
    let short = render_spans(&tl.spans, 1);
    assert_eq!(short.len(), 2);
    let children = tl.spans[0].print_spans_rec(4, 2);
    assert_eq!(children.len(), 3);
    assert_eq!(children[0].indent, 2);
    assert!(tl.spans[0].print_spans_rec(0, 2).is_empty());
}
