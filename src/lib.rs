//! Capture and offline analysis of structured tracing notifications.
//!
//! The library holds the verified logic: the record model, the splitting of a
//! log into frames, the per-thread reconstruction of span trees, the analysis
//! of those trees, the thread-identity registry and queue of the capture side,
//! and the decisions of the background writer.

pub mod analyze;
pub mod capture;
pub mod frame;
pub mod laws;
pub mod reconstruct;
pub mod report;
pub mod writer;

pub use analyze::{render_spans, LocationCount, SpanLine};
pub use capture::ReportLayer;
pub use frame::{split_frames, DELIMITER};
pub use reconstruct::{Elements, ReconstructError, Span, ThreadSpans};
pub use report::{EventData, Field, Metadata, Report, ReportPayload};
pub use writer::{
    flush_due, on_received, FrameQueue, Received, WriterAction, FLUSH_INTERVAL_MS,
    POLL_TIMEOUT_MS, QUEUE_CAPACITY,
};
