use tracing_report::{
    EventData, Field, Report, flush_due, on_received, split_frames, FrameQueue, Metadata, Received, ReportLayer,
    ReportPayload, WriterAction, DELIMITER, FLUSH_INTERVAL_MS, QUEUE_CAPACITY,
};

#[test]
fn thread_identities_are_stable_and_distinct() {
    let mut layer = ReportLayer::new();
    assert_eq!(layer.thread_identity(900), Some(1));
    assert_eq!(layer.thread_identity(17), Some(2));
    assert_eq!(layer.thread_identity(900), Some(1));
    assert_eq!(layer.thread_identity(17), Some(2));
    assert_eq!(layer.thread_identity(5), Some(3));
}

#[test]
fn messages_are_stamped() {
    let mut layer = ReportLayer::new();
    let r = layer.handle_message(42, 1234, ReportPayload::OnEnter { span: 9 }).unwrap();
    assert_eq!(r.tick, 1234);
    assert_eq!(r.thread_id, 1);
    assert!(matches!(r.payload, ReportPayload::OnEnter { span: 9 }));
    let r = layer.handle_message(43, 1300, ReportPayload::OnClose { span: 9 }).unwrap();
    assert_eq!(r.thread_id, 2);
    assert_eq!(layer.dropped(), 0);
    layer.note_dropped();
    layer.note_dropped();
    assert_eq!(layer.dropped(), 2);
}

#[test]
fn full_queue_refuses_until_drained() {
    let mut q = FrameQueue::new(QUEUE_CAPACITY);
    for i in 0..QUEUE_CAPACITY {
        assert!(q.offer(vec![i as u8 + 1, 0]).is_ok());
    }
    assert!(q.is_full());
    let back = q.offer(vec![7, 7, 0]);
    assert_eq!(back, Err(vec![7, 7, 0]));
    assert_eq!(q.len(), QUEUE_CAPACITY);
    assert_eq!(q.take(), Some(vec![1, 0]));
    assert!(q.offer(vec![7, 7, 0]).is_ok());
    assert_eq!(q.len(), QUEUE_CAPACITY);
    let mut empty = FrameQueue::new(2);
    assert_eq!(empty.take(), None);
}

#[test]
fn writer_decisions() {
    assert!(!flush_due(1000, 1000 + FLUSH_INTERVAL_MS));
    assert!(flush_due(1000, 1001 + FLUSH_INTERVAL_MS));
    assert!(!flush_due(1000, 10));
    assert!(matches!(on_received(Received::Frame(vec![3, 0])), WriterAction::Append(f) if f == vec![3, 0]));
    assert!(matches!(on_received(Received::Timeout), WriterAction::Wait));
    assert!(matches!(on_received(Received::Closed), WriterAction::FinishAndStop));
}

#[test]
fn frames_split_on_delimiter() {
    let log = vec![1, 2, DELIMITER, 3, DELIMITER, DELIMITER, 4];
    let pieces = split_frames(&log);
    assert_eq!(pieces, vec![vec![1, 2], vec![3], vec![], vec![4]]);
    assert_eq!(split_frames(&vec![]), vec![Vec::<u8>::new()]);
}

#[test]
fn damaged_frame_leaves_others_intact() {
    // three frames; the middle one's bytes are overwritten, some with the delimiter
    let log = vec![5, 6, 0, 9, 0, 9, 0, 7, 8, 0];
    let pieces = split_frames(&log);
    assert_eq!(pieces[0], vec![5, 6]);
    assert_eq!(pieces[pieces.len() - 2], vec![7, 8]);
    assert_eq!(pieces[pieces.len() - 1], Vec::<u8>::new());
}

#[test]
fn metadata_copy_is_identical() {
    let m = Metadata { name: "a".to_string(), target: "b".to_string(), file: None, line: Some(3) };
    let c = m.duplicate();
    assert_eq!(c.name, "a");
    assert_eq!(c.target, "b");
    assert_eq!(c.file, None);
    assert_eq!(c.line, Some(3));
}

#[test]
fn owned_copies_keep_contents() {
    let r = Report {
        tick: 5,
        thread_id: 2,
        payload: ReportPayload::OnEvent {
            event: EventData {
                metadata: Metadata {
                    name: "e".to_string(),
                    target: "t".to_string(),
                    file: Some("src/x.rs".to_string()),
                    line: Some(8),
                },
                fields: vec![Field { name: "k".to_string(), value: "v".to_string() }],
            },
        },
    };
    let c = r.to_owned();
    assert_eq!((c.tick, c.thread_id), (5, 2));
    match c.payload {
        ReportPayload::OnEvent { event } => {
            assert_eq!(event.metadata.file.as_deref(), Some("src/x.rs"));
            assert_eq!(event.fields.len(), 1);
            assert_eq!(event.fields[0].name, "k");
            assert_eq!(event.fields[0].value, "v");
        }
        _ => panic!("payload kind changed"),
    }
    let p = ReportPayload::OnIdChange { old: 3, new: 4 }.to_owned();
    assert!(matches!(p, ReportPayload::OnIdChange { old: 3, new: 4 }));
}
