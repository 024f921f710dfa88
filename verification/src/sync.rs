//! From a timed transcript and a reference text to the cues of the
//! reference text.

use std::ops::Range;
use vstd::prelude::*;
use crate::timing::{never_overlapping, time_lines, timed, untimed, Timing};
use crate::tokenize::{
    all_slices, bounds_of, lemma_whitespace_tokens_are_slices, parts_of, tokens_at,
    whitespace_cut, whitespace_ranges, whitespace_tokens,
};
use crate::transcript::{
    all_timed, is_stamped, lemma_stamps_are_stamped, segments_fault, source_tokens, spans_at,
    stamp_bytes, stamps_of, StampError, Stamped, Stamps, Token,
};

verus! {

/// Why a transcript and a reference text cannot be brought together.
#[derive(Clone, Copy, Debug, PartialEq, Eq)]
pub enum SyncError {
    /// A range names no part of the transcript, or a part without times.
    SourceRange,
    /// A range names no part of the reference text.
    ReferenceRange,
}

/// The time at which the audio ends: the end of the last byte of the
/// transcript, if it has one.
pub open spec fn audio_end_of(s: Stamps) -> Option<i64> {
    if s.ends.len() > 0 {
        Some(s.ends.last())
    } else {
        None
    }
}

/// `r` is what becomes of the transcript `s` and the reference text when
/// the one is cut at `source_ranges` and the other at `reference_ranges`:
/// the cues and the lines without a cue, or the first of the errors that
/// stands in the way.
pub open spec fn is_outcome(
    s: Stamps,
    source_ranges: Seq<Range<usize>>,
    reference: Seq<char>,
    reference_ranges: Seq<Range<usize>>,
    r: Result<Timing, SyncError>,
) -> bool {
    match r {
        Ok(timing) => {
            &&& all_timed(s, source_ranges)
            &&& all_slices(reference, reference_ranges)
            &&& timing.cues.deep_view() == timed(
                parts_of(s.sentence, source_ranges),
                spans_at(s, source_ranges),
                parts_of(reference, reference_ranges),
                audio_end_of(s),
            )
            &&& timing.dropped.deep_view() == untimed(
                parts_of(s.sentence, source_ranges),
                spans_at(s, source_ranges),
                parts_of(reference, reference_ranges),
                audio_end_of(s),
            )
            &&& never_overlapping(timing.cues.deep_view())
        },
        Err(SyncError::SourceRange) => !all_timed(s, source_ranges),
        Err(SyncError::ReferenceRange) => all_timed(s, source_ranges) && !all_slices(
            reference,
            reference_ranges,
        ),
    }
}

/// Times the lines of `reference` from the transcript `stamped`.
///
/// `source_ranges` names the tokens of the transcript's sentence and
/// `reference_ranges` those of the reference text, both in order, as a
/// tokenizer cut them. The tokens of the two are aligned by their texts, the
/// pairs are grouped into the lines of the reference text, and each line is
/// given its start and end. The audio is taken to end with the last byte of
/// the transcript.
pub fn time_transcript(
    stamped: &Stamped,
    source_ranges: &Vec<Range<usize>>,
    reference: &str,
    reference_ranges: &Vec<Range<usize>>,
) -> (r: Result<Timing, SyncError>)
    ensures
        is_outcome(stamped.deep_view(), source_ranges@, reference@, reference_ranges@, r),
{
    let source = match source_tokens(stamped, source_ranges) {
        Some(tokens) => tokens,
        None => {
            return Err(SyncError::SourceRange);
        },
    };
    let reference_tokens = match tokens_at(reference, reference_ranges) {
        Some(tokens) => tokens,
        None => {
            return Err(SyncError::ReferenceRange);
        },
    };
    let audio_end: Option<i64> = if stamped.byte_ends.len() > 0 {
        Some(stamped.byte_ends[stamped.byte_ends.len() - 1])
    } else {
        None
    };
    Ok(time_lines(&source, &reference_tokens, audio_end))
}

/// What whitespace cuts the sentence of a transcript into has its times:
/// where every byte of the sentence is stamped, every token that whitespace
/// cuts it into is a part of it whose bytes have their times.
pub proof fn lemma_whitespace_tokens_are_timed(s: Stamps, ranges: Seq<Range<usize>>)
    requires
        is_stamped(s),
        bounds_of(ranges) == whitespace_tokens(s.sentence),
    ensures
        all_timed(s, ranges),
{
    lemma_whitespace_tokens_are_slices(s.sentence, ranges);
}

/// Times the lines of `reference` from the segments of a transcript, both
/// cut into tokens at whitespace.
///
/// The time of every token of the transcript is spread over its bytes, the
/// sentence of the transcript and the reference text are cut wherever
/// whitespace begins or ends, and the lines of the reference text are timed
/// from what was aligned with them. What whitespace cuts a text into is
/// always fit to be timed, so the lines are timed unless the transcript is
/// at fault.
pub fn align_transcription(segments: &Vec<Vec<Token>>, reference: &str) -> (r: Result<
    Timing,
    StampError,
>)
    ensures
        match r {
            Err(e) => segments_fault(segments.deep_view()) == Some(e),
            Ok(timing) => segments_fault(segments.deep_view()) is None && is_outcome(
                stamps_of(segments.deep_view()),
                whitespace_cut(stamps_of(segments.deep_view()).sentence),
                reference@,
                whitespace_cut(reference@),
                Ok(timing),
            ),
        },
{
    let stamped = match stamp_bytes(segments) {
        Ok(stamped) => stamped,
        Err(e) => {
            return Err(e);
        },
    };
    let source_ranges = whitespace_ranges(stamped.sentence.as_str());
    let reference_ranges = whitespace_ranges(reference);
    proof {
        lemma_stamps_are_stamped(segments.deep_view());
        lemma_whitespace_tokens_are_timed(stamped.deep_view(), source_ranges@);
        lemma_whitespace_tokens_are_slices(reference@, reference_ranges@);
    }
    match time_transcript(&stamped, &source_ranges, reference, &reference_ranges) {
        Ok(timing) => Ok(timing),
        Err(_) => vstd::pervasive::unreached(),
    }
}

} // verus!
