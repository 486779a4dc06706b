//! The records of a trace and what it means for a sequence of them to be a
//! timeline.
//!
//! Times and durations are whole nanoseconds.

use vstd::prelude::*;

verus! {

/// Nanoseconds in one second.
pub const NANOS_PER_SECOND: i64 = 1_000_000_000;

/// One record of a per-process log.
#[derive(Clone, Debug)]
pub struct RawEvent {
    /// When the call began, in nanoseconds.
    pub time: i64,
    /// The name of the function that was called.
    pub function: String,
    /// How long the call took, in nanoseconds.
    pub duration: i64,
    /// The peer of a transfer; negative when the call moved no data.
    pub target_pe: i32,
    /// Bytes that the caller received from the peer.
    pub bytes_rx: u64,
    /// Bytes that the caller sent to the peer.
    pub bytes_tx: u64,
    /// The raw call stack.
    pub stacktrace: String,
    /// Free text; on a log's first record, the host that ran the process.
    pub extra: Option<String>,
    /// The call stack as symbol names, separated by `|`.
    pub symboltrace: Option<String>,
}

/// A record together with the process that logged it.
#[derive(Clone, Debug)]
pub struct Event {
    pub source_pe: u32,
    pub raw: RawEvent,
}

/// What a record says, with its texts as sequences of characters.
pub struct RawEventView {
    pub time: i64,
    pub function: Seq<char>,
    pub duration: i64,
    pub target_pe: i32,
    pub bytes_rx: u64,
    pub bytes_tx: u64,
    pub stacktrace: Seq<char>,
    pub extra: Option<Seq<char>>,
    pub symboltrace: Option<Seq<char>>,
}

/// What an event says, with its texts as sequences of characters.
pub struct EventView {
    pub source_pe: u32,
    pub raw: RawEventView,
}

/// The characters of an optional text.
pub open spec fn text_view(text: Option<String>) -> Option<Seq<char>> {
    match text {
        Some(s) => Some(s@),
        None => None,
    }
}

impl View for RawEvent {
    type V = RawEventView;

    open spec fn view(&self) -> RawEventView {
        RawEventView {
            time: self.time,
            function: self.function@,
            duration: self.duration,
            target_pe: self.target_pe,
            bytes_rx: self.bytes_rx,
            bytes_tx: self.bytes_tx,
            stacktrace: self.stacktrace@,
            extra: text_view(self.extra),
            symboltrace: text_view(self.symboltrace),
        }
    }
}

impl View for Event {
    type V = EventView;

    open spec fn view(&self) -> EventView {
        EventView { source_pe: self.source_pe, raw: self.raw@ }
    }
}

impl RawEvent {
    /// The instant at which the call ended.
    pub open spec fn end_time(&self) -> int {
        self.time + self.duration
    }

    /// A record is well formed when its duration is not negative and its end
    /// is still a representable instant.
    pub open spec fn wf(&self) -> bool {
        0 <= self.duration && self.end_time() <= i64::MAX
    }
}

impl Event {
    /// Whether the event moved data to or from another process.
    pub open spec fn is_transfer(&self) -> bool {
        self.raw.target_pe >= 0 && self.source_pe != self.raw.target_pe
    }
}

/// Events in non-decreasing order of their start times.
pub open spec fn sorted_by_time(events: Seq<Event>) -> bool {
    forall|i: int, j: int| 0 <= i <= j < events.len() ==> events[i].raw.time <= events[j].raw.time
}

/// Every event of the sequence is well formed.
pub open spec fn all_wf(events: Seq<Event>) -> bool {
    forall|i: int| 0 <= i < events.len() ==> (#[trigger] events[i]).raw.wf()
}

} // verus!
