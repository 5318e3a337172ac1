//! `CaptionBlock`: one caption, with its speaker, its times and its text.

use vstd::prelude::*;

use crate::time::{SimpleTime, TimeParts};

verus! {

/// The mathematical value of a `CaptionBlock`.
pub struct CaptionView {
    pub speaker: Option<Seq<char>>,
    pub start: TimeParts,
    pub end: TimeParts,
    pub text: Seq<char>,
}

/// Struct for storing caption blocks.
/// Caption blocks contain an optional speaker, start and end times, and the text that will
/// be displayed on the screen during the block.
#[derive(Debug)]
pub struct CaptionBlock {
    speaker: Option<String>,
    start: SimpleTime,
    end: SimpleTime,
    text: String,
}

impl View for CaptionBlock {
    type V = CaptionView;

    closed spec fn view(&self) -> CaptionView {
        CaptionView {
            speaker: self.speaker.deep_view(),
            start: self.start@,
            end: self.end@,
            text: self.text@,
        }
    }
}

/// Error types for CaptionBlock.
#[derive(Debug)]
pub enum CaptionBlockError {
    EndsBeforeStart(SimpleTime, SimpleTime),
}

/// A copy of an optional string.
fn clone_speaker(speaker: &Option<String>) -> (r: Option<String>)
    ensures
        r.deep_view() == speaker.deep_view(),
{
    match speaker {
        Some(s) => Some(s.clone()),
        None => None,
    }
}

impl CaptionBlock {
    /// Assemble a block from its parts, without checking the order of the times.
    pub(crate) fn assemble(speaker: Option<String>, start: SimpleTime, end: SimpleTime, text: String) -> (r: CaptionBlock)
        ensures
            r@ == (CaptionView { speaker: speaker.deep_view(), start: start@, end: end@, text: text@ }),
    {
        CaptionBlock { speaker, start, end, text }
    }

    /// Construct a CaptionBlock from its parts. Fails when the block ends before it starts.
    pub fn from(speaker: Option<String>, start: SimpleTime, end: SimpleTime, text: String) -> (r:
        Result<CaptionBlock, CaptionBlockError>)
        requires
            start@.total_ms() <= usize::MAX,
            end@.total_ms() <= usize::MAX,
        ensures
            r is Err <==> end@.total_ms() < start@.total_ms(),
            r is Err <==> end@.hours * 3_600_000 + end@.minutes * 60_000 + end@.seconds * 1000
                + end@.milliseconds < start@.hours * 3_600_000 + start@.minutes * 60_000
                + start@.seconds * 1000 + start@.milliseconds,
            r matches Ok(b) ==> b@ == (CaptionView {
                speaker: speaker.deep_view(),
                start: start@,
                end: end@,
                text: text@,
            }),
            r matches Err(CaptionBlockError::EndsBeforeStart(a, b)) ==> a@ == start@ && b@
                == end@,
    {
        let diff: i128 = (end.to_milliseconds() as i128) - (start.to_milliseconds() as i128);
        if diff < 0 {
            Err(CaptionBlockError::EndsBeforeStart(start, end))
        } else {
            Ok(CaptionBlock { speaker, start, end, text })
        }
    }

    /// Get a copy of this block's text.
    pub fn text(&self) -> (r: String)
        ensures
            r@ == self@.text,
    {
        self.text.clone()
    }

    /// Get a copy of this block's speaker.
    pub fn speaker(&self) -> (r: Option<String>)
        ensures
            r.deep_view() == self@.speaker,
    {
        clone_speaker(&self.speaker)
    }

    /// Get a copy of this caption block's start time.
    pub fn start(&self) -> (r: SimpleTime)
        ensures
            r@ == self@.start,
    {
        self.start
    }

    /// Get a copy of this caption block's end time.
    pub fn end(&self) -> (r: SimpleTime)
        ensures
            r@ == self@.end,
    {
        self.end
    }
}

} // verus!
