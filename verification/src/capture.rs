//! The decisions of a live capture: what is done with what the device gives, and what is
//! told of it.

use vstd::prelude::*;
use crate::address::{dotted, write_ipv4};
use crate::frame::{frame_ipv4, ipv4_endpoints};
use crate::text::{decimal, push_decimal};

verus! {

/// What a capture device gives when it is asked for a frame.
pub enum CaptureEvent<'a> {
    /// A frame.
    Frame(&'a [u8]),
    /// No frame came in time.
    Timeout,
    /// No frame will come any more.
    NoMorePackets,
    /// The device failed, for this reason.
    Failure(String),
}

/// What a capture does next.
pub enum CaptureAction {
    /// Save the frame, which is the one with this number, show the line, if there is one,
    /// and ask again.
    Save { number: u64, line: Option<String> },
    /// Ask again.
    Wait,
    /// End, with this many frames saved.
    Finish { saved: u64 },
    /// End with this error.
    Fail { message: String },
}

/// The line that is shown for a frame: its number, and where it comes from and goes to,
/// where it carries IPv4. It overwrites the line before it.
pub open spec fn progress_line(number: u64, frame: Seq<u8>) -> Option<Seq<char>> {
    match frame_ipv4(frame) {
        Some((source, destination, _, _, _)) => Some(
            "\r["@ + decimal(number as nat) + "] "@ + dotted(source) + " -> "@ + dotted(
                destination,
            ) + "  "@,
        ),
        None => None,
    }
}

/// Writes the line that is shown for a frame.
fn write_progress(number: u64, frame: &[u8]) -> (r: Option<String>)
    ensures
        match r {
            Some(line) => progress_line(number, frame@) == Some(line@),
            None => progress_line(number, frame@) is None,
        },
{
    match ipv4_endpoints(frame) {
        Some((source, destination)) => {
            let mut out = "\r[".to_owned();
            push_decimal(&mut out, number);
            out.append("] ");
            let from = write_ipv4(source);
            out.append(from.as_str());
            out.append(" -> ");
            let to = write_ipv4(destination);
            out.append(to.as_str());
            out.append("  ");
            Some(out)
        },
        None => None,
    }
}

/// Decides what a capture that has saved some frames does next: a frame is saved and
/// counted, a timeout is waited out, and the capture ends when no more frames come or the
/// device fails.
pub fn capture(saved: u64, event: CaptureEvent) -> (r: CaptureAction)
    requires
        event is Frame ==> saved < u64::MAX,
    ensures
        match (event, r) {
            (CaptureEvent::Frame(frame), CaptureAction::Save { number, line }) => {
                &&& number == saved + 1
                &&& match line {
                    Some(text) => progress_line(number, frame@) == Some(text@),
                    None => progress_line(number, frame@) is None,
                }
            },
            (CaptureEvent::Timeout, CaptureAction::Wait) => true,
            (CaptureEvent::NoMorePackets, CaptureAction::Finish { saved: total }) => total
                == saved,
            (CaptureEvent::Failure(reason), CaptureAction::Fail { message }) => message@
                == "Capture error: "@ + reason@,
            _ => false,
        },
{
    match event {
        CaptureEvent::Frame(frame) => {
            let number: u64 = saved + 1;
            CaptureAction::Save { number, line: write_progress(number, frame) }
        },
        CaptureEvent::Timeout => CaptureAction::Wait,
        CaptureEvent::NoMorePackets => CaptureAction::Finish { saved },
        CaptureEvent::Failure(reason) => {
            let mut message = "Capture error: ".to_owned();
            message.append(reason.as_str());
            CaptureAction::Fail { message }
        },
    }
}

/// The filter that a capture is set to: none where it is empty.
pub fn capture_filter(filter: Option<&str>) -> (r: Option<&str>)
    ensures
        r == (match filter {
            Some(f) if f@.len() > 0 => Some(f),
            _ => None,
        }),
{
    match filter {
        Some(f) => {
            if f.unicode_len() > 0 {
                Some(f)
            } else {
                None
            }
        },
        None => None,
    }
}

} // verus!
