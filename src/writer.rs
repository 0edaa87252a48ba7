use vstd::prelude::*;

verus! {

/// How many encoded frames may wait for the writer at once.
pub const QUEUE_CAPACITY: usize = 128;

/// The writer makes the log durable when this many milliseconds have passed
/// since it last did.
pub const FLUSH_INTERVAL_MS: u64 = 250;

/// The longest the writer waits for one frame before it looks at the clock again.
pub const POLL_TIMEOUT_MS: u64 = 25;

/// Frames handed from producers to the writer, in arrival order, at most
/// `capacity` of them at a time.
pub struct FrameQueue {
    capacity: usize,
    frames: Vec<Vec<u8>>,
}

impl FrameQueue {
    /// The frames waiting, oldest first.
    pub closed spec fn contents(&self) -> Seq<Seq<u8>> {
        self.frames@.map_values(|f: Vec<u8>| f@)
    }

    pub closed spec fn bound(&self) -> nat {
        self.capacity as nat
    }

    pub open spec fn wf(&self) -> bool {
        self.contents().len() <= self.bound()
    }

    /// An empty queue that holds at most `capacity` frames.
    pub fn new(capacity: usize) -> (r: FrameQueue)
        ensures
            r.wf(),
            r.contents() == Seq::<Seq<u8>>::empty(),
            r.bound() == capacity,
    {
        let r = FrameQueue { capacity, frames: Vec::new() };
        assert(r.contents() =~= Seq::<Seq<u8>>::empty());
        r
    }

    pub fn len(&self) -> (r: usize)
        ensures
            r == self.contents().len(),
    {
        self.frames.len()
    }

    pub fn is_full(&self) -> (r: bool)
        requires
            self.wf(),
        ensures
            r == (self.contents().len() == self.bound()),
    {
        self.frames.len() >= self.capacity
    }

    /// Appends `frame` when there is room. When the queue is full nothing
    /// changes and the frame comes back, for the producer to wait and offer
    /// it again.
    pub fn offer(&mut self, frame: Vec<u8>) -> (r: Result<(), Vec<u8>>)
        requires
            old(self).wf(),
        ensures
            final(self).wf(),
            final(self).bound() == old(self).bound(),
            old(self).contents().len() < old(self).bound() ==> r is Ok && final(self).contents()
                == old(self).contents().push(frame@),
            old(self).contents().len() == old(self).bound() ==> r == Err::<(), Vec<u8>>(frame)
                && final(self).contents() == old(self).contents(),
    {
        if self.frames.len() >= self.capacity {
            return Err(frame);
        }
        let ghost before = self.frames@;
        self.frames.push(frame);
        proof {
            assert(self.frames@.map_values(|f: Vec<u8>| f@) =~= before.map_values(|f: Vec<u8>| f@).push(
                frame@,
            ));
        }
        Ok(())
    }

    /// Removes and returns the oldest frame, if any.
    pub fn take(&mut self) -> (r: Option<Vec<u8>>)
        requires
            old(self).wf(),
        ensures
            final(self).wf(),
            final(self).bound() == old(self).bound(),
            old(self).contents().len() == 0 ==> r.is_none() && final(self).contents() == old(
                self,
            ).contents(),
            old(self).contents().len() > 0 ==> r.is_some() && r.unwrap()@ == old(self).contents()[0]
                && final(self).contents() == old(self).contents().drop_first(),
    {
        if self.frames.len() == 0 {
            return None;
        }
        let ghost before = self.frames@;
        let f = self.frames.remove(0);
        proof {
            assert(self.frames@.map_values(|f: Vec<u8>| f@) =~= before.map_values(
                |f: Vec<u8>| f@,
            ).drop_first());
        }
        Some(f)
    }
}

/// What the writer observed while waiting for the next frame.
pub enum Received {
    Frame(Vec<u8>),
    Timeout,
    Closed,
}

/// What the writer does next.
pub enum WriterAction {
    /// Append these bytes to the log as they are.
    Append(Vec<u8>),
    /// Nothing arrived: go round again.
    Wait,
    /// Every producer is gone: make the log durable one last time and stop.
    FinishAndStop,
}

/// Whether the log is due to be made durable, `now_ms` and `last_flush_ms`
/// being milliseconds on one clock.
pub fn flush_due(last_flush_ms: u64, now_ms: u64) -> (r: bool)
    ensures
        r == (now_ms >= last_flush_ms && now_ms - last_flush_ms > FLUSH_INTERVAL_MS),
{
    now_ms >= last_flush_ms && now_ms - last_flush_ms > FLUSH_INTERVAL_MS
}

/// The writer's response to what it received.
pub fn on_received(ev: Received) -> (r: WriterAction)
    ensures
        ev matches Received::Frame(f) ==> r == WriterAction::Append(f),
        ev matches Received::Timeout ==> r matches WriterAction::Wait,
        ev matches Received::Closed ==> r matches WriterAction::FinishAndStop,
{
    match ev {
        Received::Frame(f) => WriterAction::Append(f),
        Received::Timeout => WriterAction::Wait,
        Received::Closed => WriterAction::FinishAndStop,
    }
}

} // verus!
