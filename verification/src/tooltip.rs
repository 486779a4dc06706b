//! What the tooltip of an event says besides its name.

use crate::event::RawEvent;
use vstd::prelude::*;

verus! {

/// The byte `|`, which separates the frames of a symbol trace.
pub const BAR: u8 = 124;

/// The bytes that an event moved, as the tooltip tells them.
#[derive(Clone, Copy, Debug, PartialEq, Eq, Structural)]
pub enum ByteLabel {
    /// The event moved no bytes: the tooltip has no line for them.
    Silent,
    /// Bytes in both directions.
    Both { total: u128, received: u64, sent: u64 },
    /// Received bytes only.
    Received { bytes: u64 },
    /// Sent bytes only.
    Sent { bytes: u64 },
}

/// The label for an event's bytes.
pub open spec fn byte_label_of(received: u64, sent: u64) -> ByteLabel {
    if received > 0 && sent > 0 {
        ByteLabel::Both { total: (received + sent) as u128, received, sent }
    } else if received > 0 {
        ByteLabel::Received { bytes: received }
    } else if sent > 0 {
        ByteLabel::Sent { bytes: sent }
    } else {
        ByteLabel::Silent
    }
}

/// The bandwidth of an event in hundredths of a gigabyte per second, which
/// is hundredths of a byte per nanosecond: `100 * bytes / duration`, rounded
/// down. There is none for an event without bytes or without duration.
pub open spec fn bandwidth_of(received: u64, sent: u64, duration: i64) -> Option<u128> {
    if received + sent > 0 && duration > 0 {
        Some((100 * (received + sent) / (duration as int)) as u128)
    } else {
        None
    }
}

/// Chooses the label for the bytes of an event.
pub fn byte_label(raw: &RawEvent) -> (label: ByteLabel)
    ensures
        label == byte_label_of(raw.bytes_rx, raw.bytes_tx),
{
    if raw.bytes_rx > 0 && raw.bytes_tx > 0 {
        ByteLabel::Both {
            total: raw.bytes_rx as u128 + raw.bytes_tx as u128,
            received: raw.bytes_rx,
            sent: raw.bytes_tx,
        }
    } else if raw.bytes_rx > 0 {
        ByteLabel::Received { bytes: raw.bytes_rx }
    } else if raw.bytes_tx > 0 {
        ByteLabel::Sent { bytes: raw.bytes_tx }
    } else {
        ByteLabel::Silent
    }
}

/// The bandwidth of an event, in hundredths of a gigabyte per second.
pub fn bandwidth(raw: &RawEvent) -> (r: Option<u128>)
    ensures
        r == bandwidth_of(raw.bytes_rx, raw.bytes_tx, raw.duration),
{
    let total: u128 = raw.bytes_rx as u128 + raw.bytes_tx as u128;
    if total > 0 && raw.duration > 0 {
        Some(100 * total / (raw.duration as u128))
    } else {
        None
    }
}

/// Whether a byte is white space: a blank, a tab, a line feed, a vertical
/// tab, a form feed or a carriage return.
pub open spec fn is_space(b: u8) -> bool {
    b == 32 || (9 <= b <= 13)
}

/// Whether the bytes from `a` up to `b` are a frame of the trace: they
/// reach from the start of the trace or a `|` to the next `|` or the end of
/// the trace, and not all of them are white space.
pub open spec fn is_frame(s: Seq<u8>, a: int, b: int) -> bool {
    &&& 0 <= a <= b <= s.len()
    &&& a == 0 || s[a - 1] == BAR
    &&& b == s.len() || s[b] == BAR
    &&& forall|i: int| a <= i < b ==> #[trigger] s[i] != BAR
    &&& exists|i: int| a <= i < b && !is_space(#[trigger] s[i])
}

/// The frames of a symbol trace, each as the range of its bytes, in their
/// order. Frames that hold nothing but white space are left out.
#[verifier::rlimit(40)]
pub fn stack_frames(trace: &[u8]) -> (frames: Vec<(usize, usize)>)
    ensures
        forall|k: int|
            0 <= k < frames.len() ==> is_frame(trace@, (#[trigger] frames[k]).0 as int, frames[k].1 as int),
        forall|j: int, k: int| 0 <= j < k < frames.len() ==> frames[j].1 < frames[k].0,
        forall|a: int, b: int|
            is_frame(trace@, a, b) ==> exists|k: int|
                0 <= k < frames.len() && #[trigger] frames[k] == (a as usize, b as usize),
{
    let n: usize = trace.len();
    let mut frames: Vec<(usize, usize)> = Vec::new();
    let mut from: usize = 0;
    let mut i: usize = 0;
    let mut blank: bool = true;
    while i < n
        invariant
            from <= i <= n,
            n == trace.len(),
            from == 0 || trace[from - 1] == BAR,
            forall|j: int| from <= j < i ==> #[trigger] trace[j] != BAR,
            blank <==> forall|j: int| from <= j < i ==> is_space(#[trigger] trace[j]),
            forall|k: int|
                0 <= k < frames.len() ==> is_frame(
                    trace@,
                    (#[trigger] frames[k]).0 as int,
                    frames[k].1 as int,
                ) && frames[k].1 < from,
            forall|j: int, k: int| 0 <= j < k < frames.len() ==> frames[j].1 < frames[k].0,
            forall|a: int, b: int|
                is_frame(trace@, a, b) && b < from ==> exists|k: int|
                    0 <= k < frames.len() && #[trigger] frames[k] == (a as usize, b as usize),
        decreases n - i,
    {
        let byte: u8 = trace[i];
        if byte == BAR {
            let ghost before = frames@;
            let ghost start = from;
            if !blank {
                frames.push((from, i));
                proof {
                    assert(is_frame(trace@, from as int, i as int));
                    assert(frames@.drop_last() =~= before);
                }
            }
            from = i + 1;
            blank = true;
            proof {
                assert forall|a: int, b: int| is_frame(trace@, a, b) && b < from implies exists|
                    k: int,
                | 0 <= k < frames.len() && #[trigger] frames[k] == (a as usize, b as usize) by {
                    if b < start {
                        let k = choose|k: int|
                            0 <= k < before.len() && #[trigger] before[k] == (a as usize, b as usize);
                        assert(frames[k] == before[k]);
                    } else {
                        lemma_frame_of_segment(trace@, start as int, i as int, a, b);
                        assert(frames[frames.len() - 1] == (a as usize, b as usize));
                    }
                }
            }
        } else {
            if !(byte == 32 || (9 <= byte && byte <= 13)) {
                blank = false;
            }
        }
        i = i + 1;
    }
    let ghost before = frames@;
    if !blank {
        frames.push((from, n));
        proof {
            assert(is_frame(trace@, from as int, n as int));
            assert(frames@.drop_last() =~= before);
        }
    }
    proof {
        assert forall|a: int, b: int| is_frame(trace@, a, b) implies exists|k: int|
            0 <= k < frames.len() && #[trigger] frames[k] == (a as usize, b as usize) by {
            if b < from {
                let k = choose|k: int|
                    0 <= k < before.len() && #[trigger] before[k] == (a as usize, b as usize);
                assert(frames[k] == before[k]);
            } else {
                lemma_frame_of_segment(trace@, from as int, n as int, a, b);
                assert(frames[frames.len() - 1] == (a as usize, b as usize));
            }
        }
    }
    frames
}

/// A frame that ends at or after the start of a segment without a `|`, which
/// itself ends at a `|` or at the end of the trace, is that segment, and
/// the segment is not blank.
pub proof fn lemma_frame_of_segment(s: Seq<u8>, from: int, to: int, a: int, b: int)
    requires
        0 <= from <= to <= s.len(),
        from == 0 || s[from - 1] == BAR,
        to == s.len() || s[to] == BAR,
        forall|j: int| from <= j < to ==> #[trigger] s[j] != BAR,
        is_frame(s, a, b),
        from <= b <= to,
    ensures
        a == from,
        b == to,
        exists|j: int| from <= j < to && !is_space(#[trigger] s[j]),
{
    if b < to {
        assert(s[b] != BAR);
    }
    if a < from {
        assert(s[from - 1] != BAR);
    } else if a > from {
        assert(s[a - 1] != BAR);
    }
}

} // verus!
