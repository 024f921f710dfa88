//! A transcript as the recognizer hands it over, and the time of each of
//! its bytes.
//!
//! The recognizer times its own tokens. Once their texts are put together
//! and cut anew, a token of the new cut takes its times from the bytes it
//! is made of: the time that a token of the recognizer took is spread
//! evenly over its bytes.

use std::ops::Range;
use vstd::prelude::*;
use vstd::string::StringExecFns;
use crate::lines::{source_texts, spans_of, SourceToken, Span};
use crate::text::{byte_len, is_slice, lemma_encode_concat, part_of, push_char, slice_of};
use crate::tokenize::parts_of;

verus! {

/// A token of the recognizer: its text and when it was heard, in
/// hundredths of a second.
#[derive(Clone, Debug, PartialEq, Eq)]
pub struct Token {
    pub start: i64,
    pub end: i64,
    pub text: String,
}

/// A [`Token`] as a mathematical value.
pub struct TokenModel {
    pub start: i64,
    pub end: i64,
    pub text: Seq<char>,
}

impl DeepView for Token {
    type V = TokenModel;

    open spec fn deep_view(&self) -> TokenModel {
        TokenModel { start: self.start, end: self.end, text: self.text@ }
    }
}

/// What the recognizer made of a recording: the language it heard, and the
/// tokens of each segment of speech.
#[derive(Clone, Debug, PartialEq, Eq)]
pub struct Transcription {
    pub language: String,
    pub segments: Vec<Vec<Token>>,
}

/// The text of a transcript, one line for each segment, and for each byte
/// of it the time at which it begins and ends.
#[derive(Clone, Debug, PartialEq, Eq)]
pub struct Stamped {
    pub sentence: String,
    pub byte_starts: Vec<i64>,
    pub byte_ends: Vec<i64>,
}

/// A [`Stamped`] as a mathematical value.
pub struct Stamps {
    pub sentence: Seq<char>,
    pub starts: Seq<i64>,
    pub ends: Seq<i64>,
}

impl DeepView for Stamped {
    type V = Stamps;

    open spec fn deep_view(&self) -> Stamps {
        Stamps { sentence: self.sentence@, starts: self.byte_starts@, ends: self.byte_ends@ }
    }
}

/// Why the bytes of a transcript cannot be timed.
#[derive(Clone, Copy, Debug, PartialEq, Eq)]
pub enum StampError {
    /// The time that a token took is beyond what the numbers hold.
    TimeOverflow,
    /// A token has no text to spread its time over.
    EmptyToken,
    /// The first segment has no token, so its end has no time.
    NothingHeard,
}

/// `x` divided by `n`, rounded toward zero.
pub open spec fn toward_zero(x: int, n: int) -> int {
    if x >= 0 {
        x / n
    } else {
        -((-x) / n)
    }
}

/// The time that the token takes for each of its bytes.
pub open spec fn byte_duration(t: TokenModel) -> int {
    toward_zero(t.end - t.start, byte_len(t.text) as int)
}

/// The time at which byte `k` of the token begins, which is also the time
/// at which the byte before it ends.
pub open spec fn byte_time(t: TokenModel, k: int) -> int {
    t.start + k * byte_duration(t)
}

/// What is wrong with the token, if anything.
pub open spec fn token_fault(t: TokenModel) -> Option<StampError> {
    if t.end - t.start > i64::MAX || t.end - t.start < i64::MIN || byte_len(t.text) > i64::MAX {
        Some(StampError::TimeOverflow)
    } else if byte_len(t.text) == 0 {
        Some(StampError::EmptyToken)
    } else {
        None
    }
}

/// What is wrong with the first token that has a fault, if any has.
pub open spec fn tokens_fault(tokens: Seq<TokenModel>) -> Option<StampError>
    decreases tokens.len(),
{
    if tokens.len() == 0 {
        None
    } else if tokens_fault(tokens.drop_last()) is Some {
        tokens_fault(tokens.drop_last())
    } else {
        token_fault(tokens.last())
    }
}

/// What is wrong with the segment at index `i`, if anything.
pub open spec fn segment_fault(segment: Seq<TokenModel>, i: int) -> Option<StampError> {
    if tokens_fault(segment) is Some {
        tokens_fault(segment)
    } else if i == 0 && segment.len() == 0 {
        Some(StampError::NothingHeard)
    } else {
        None
    }
}

/// What is wrong with the first segment that has a fault, if any has.
pub open spec fn segments_fault(segments: Seq<Seq<TokenModel>>) -> Option<StampError>
    decreases segments.len(),
{
    if segments.len() == 0 {
        None
    } else if segments_fault(segments.drop_last()) is Some {
        segments_fault(segments.drop_last())
    } else {
        segment_fault(segments.last(), segments.len() - 1)
    }
}

/// `s` with the text of the token at its end, and the times of its bytes.
pub open spec fn with_token(s: Stamps, t: TokenModel) -> Stamps {
    Stamps {
        sentence: s.sentence + t.text,
        starts: s.starts + Seq::new(byte_len(t.text), |k: int| byte_time(t, k) as i64),
        ends: s.ends + Seq::new(byte_len(t.text), |k: int| byte_time(t, k + 1) as i64),
    }
}

/// `s` with the tokens at its end, in order.
pub open spec fn with_tokens(s: Stamps, tokens: Seq<TokenModel>) -> Stamps
    decreases tokens.len(),
{
    if tokens.len() == 0 {
        s
    } else {
        with_token(with_tokens(s, tokens.drop_last()), tokens.last())
    }
}

/// `s` with the segment at its end, and behind it a line break that begins
/// and ends when the byte before it ends.
pub open spec fn with_segment(s: Stamps, segment: Seq<TokenModel>) -> Stamps {
    let t = with_tokens(s, segment);
    Stamps {
        sentence: t.sentence.push('\n'),
        starts: t.starts.push(t.ends.last()),
        ends: t.ends.push(t.ends.last()),
    }
}

/// The segments put together, in order.
pub open spec fn stamps_of(segments: Seq<Seq<TokenModel>>) -> Stamps
    decreases segments.len(),
{
    if segments.len() == 0 {
        Stamps { sentence: Seq::empty(), starts: Seq::empty(), ends: Seq::empty() }
    } else {
        with_segment(stamps_of(segments.drop_last()), segments.last())
    }
}

/// The times of the bytes of a token lie between its start and its end.
proof fn lemma_byte_time_bounds(t: TokenModel, k: int)
    requires
        token_fault(t) is None,
        0 <= k <= byte_len(t.text),
    ensures
        t.start <= t.end ==> t.start <= byte_time(t, k) <= t.end,
        t.end <= t.start ==> t.end <= byte_time(t, k) <= t.start,
{
    let n = byte_len(t.text) as int;
    let d = t.end - t.start;
    let q = byte_duration(t);
    if d >= 0 {
        assert(0 <= q && q * n <= d) by (nonlinear_arith)
            requires
                q == d / n,
                n > 0,
                d >= 0,
        ;
        assert(0 <= k * q <= q * n) by (nonlinear_arith)
            requires
                0 <= k <= n,
                0 <= q,
        ;
    } else {
        let p = (-d) / n;
        assert(0 <= p && p * n <= -d) by (nonlinear_arith)
            requires
                p == (-d) / n,
                n > 0,
                -d >= 0,
        ;
        assert(0 <= k * p <= p * n) by (nonlinear_arith)
            requires
                0 <= k <= n,
                0 <= p,
        ;
        assert(k * q == -(k * p)) by (nonlinear_arith)
            requires
                q == -p,
        ;
    }
}

/// Spreads the time of every token evenly over the bytes of its text, and
/// puts the texts together, with a line break behind each segment.
///
/// Each byte of a token takes the time of the token divided by the number
/// of its bytes, rounded toward zero. The line break behind a segment
/// begins and ends when the byte before it ends.
pub fn stamp_bytes(segments: &Vec<Vec<Token>>) -> (r: Result<Stamped, StampError>)
    ensures
        match r {
            Ok(stamped) => segments_fault(segments.deep_view()) is None && stamped.deep_view()
                == stamps_of(segments.deep_view()),
            Err(e) => segments_fault(segments.deep_view()) == Some(e),
        },
{
    broadcast use vstd::slice::group_slice_axioms;

    let ghost model = segments.deep_view();
    let mut sentence = String::new();
    let mut byte_starts: Vec<i64> = Vec::new();
    let mut byte_ends: Vec<i64> = Vec::new();
    let mut i: usize = 0;
    proof {
        assert(model.take(0) =~= Seq::<Seq<TokenModel>>::empty());
    }
    while i < segments.len()
        invariant
            model == segments.deep_view(),
            i <= segments.len(),
            segments_fault(model.take(i as int)) is None,
            (Stamps { sentence: sentence@, starts: byte_starts@, ends: byte_ends@ }) == stamps_of(
                model.take(i as int),
            ),
            i > 0 ==> byte_ends.len() > 0,
        decreases segments.len() - i,
    {
        let segment = &segments[i];
        let ghost seg = model[i as int];
        let ghost base = stamps_of(model.take(i as int));
        proof {
            assert(segment.deep_view() == seg);
            assert(model.take(i + 1).drop_last() =~= model.take(i as int));
            assert(model.take(i + 1).last() == seg);
            assert(seg.take(0) =~= Seq::<TokenModel>::empty());
        }
        let mut j: usize = 0;
        while j < segment.len()
            invariant
                seg == segment.deep_view(),
                j <= segment.len(),
                tokens_fault(seg.take(j as int)) is None,
                (Stamps { sentence: sentence@, starts: byte_starts@, ends: byte_ends@ })
                    == with_tokens(base, seg.take(j as int)),
                i > 0 || j > 0 ==> byte_ends.len() > 0,
                model == segments.deep_view(),
                i < segments.len(),
                seg == model[i as int],
                segments_fault(model.take(i as int)) is None,
                model.take(i + 1).drop_last() == model.take(i as int),
                model.take(i + 1).last() == seg,
            decreases segment.len() - j,
        {
            let token = &segment[j];
            let ghost t = seg[j as int];
            let ghost so_far = with_tokens(base, seg.take(j as int));
            proof {
                assert(token.deep_view() == t);
                assert(seg.take(j + 1).drop_last() =~= seg.take(j as int));
                assert(seg.take(j + 1).last() == t);
            }
            let bytes: usize = token.text.as_str().as_bytes().len();
            assert(bytes == byte_len(t.text));
            let fault: Option<StampError> = match token.end.checked_sub(token.start) {
                None => Some(StampError::TimeOverflow),
                Some(_) => if bytes as u64 > 0x7FFF_FFFF_FFFF_FFFF {
                    Some(StampError::TimeOverflow)
                } else if bytes == 0 {
                    Some(StampError::EmptyToken)
                } else {
                    None
                },
            };
            assert(fault == token_fault(t));
            match fault {
                Some(e) => {
                    proof {
                        lemma_fault_stays(model, i as int, seg, j as int);
                    }
                    return Err(e);
                },
                None => {},
            }
            let duration: i64 = match (token.end - token.start).checked_div(bytes as i64) {
                Some(d) => d,
                None => 0,
            };
            assert(duration == byte_duration(t)) by {
                let x = (token.end - token.start) as int;
                let n = bytes as int;
                assert(x * -1 == -x);
                assert(((x * -1) / n) * -1 == -((-x) / n));
                lemma_byte_time_bounds(t, n);
                lemma_byte_time_bounds(t, 1);
            }
            let mut current: i64 = token.start;
            let mut k: usize = 0;
            while k < bytes
                invariant
                    k <= bytes,
                    bytes == byte_len(t.text),
                    token_fault(t) is None,
                    duration == byte_duration(t),
                    current == byte_time(t, k as int),
                    byte_starts@ == so_far.starts + Seq::new(
                        k as nat,
                        |b: int| byte_time(t, b) as i64,
                    ),
                    byte_ends@ == so_far.ends + Seq::new(
                        k as nat,
                        |b: int| byte_time(t, b + 1) as i64,
                    ),
                decreases bytes - k,
            {
                proof {
                    lemma_byte_time_bounds(t, k as int);
                    lemma_byte_time_bounds(t, k + 1);
                    assert((k + 1) * byte_duration(t) == k * byte_duration(t) + byte_duration(t))
                        by (nonlinear_arith);
                }
                byte_starts.push(current);
                current = current + duration;
                byte_ends.push(current);
                k += 1;
                proof {
                    assert(byte_starts@ =~= so_far.starts + Seq::new(
                        k as nat,
                        |b: int| byte_time(t, b) as i64,
                    ));
                    assert(byte_ends@ =~= so_far.ends + Seq::new(
                        k as nat,
                        |b: int| byte_time(t, b + 1) as i64,
                    ));
                }
            }
            sentence.append(token.text.as_str());
            j += 1;
        }
        proof {
            assert(seg.take(j as int) =~= seg);
        }
        if byte_ends.len() == 0 {
            proof {
                assert(segments_fault(model.take(i + 1)) == Some(StampError::NothingHeard));
                lemma_segments_fault_first(model, i + 1);
            }
            return Err(StampError::NothingHeard);
        }
        let last: i64 = byte_ends[byte_ends.len() - 1];
        byte_starts.push(last);
        byte_ends.push(last);
        push_char(&mut sentence, '\n');
        i += 1;
    }
    proof {
        assert(model.take(i as int) =~= model);
    }
    Ok(Stamped { sentence, byte_starts, byte_ends })
}

/// A fault met in a token is the fault of the whole.
proof fn lemma_fault_stays(model: Seq<Seq<TokenModel>>, i: int, seg: Seq<TokenModel>, j: int)
    requires
        0 <= i < model.len(),
        seg == model[i],
        0 <= j < seg.len(),
        segments_fault(model.take(i)) is None,
        tokens_fault(seg.take(j)) is None,
        token_fault(seg[j]) is Some,
    ensures
        segments_fault(model) == token_fault(seg[j]),
{
    assert(seg.take(j + 1).drop_last() =~= seg.take(j));
    assert(tokens_fault(seg.take(j + 1)) == token_fault(seg[j]));
    lemma_tokens_fault_first(seg, j + 1);
    assert(model.take(i + 1).drop_last() =~= model.take(i));
    assert(segments_fault(model.take(i + 1)) == token_fault(seg[j]));
    lemma_segments_fault_first(model, i + 1);
}

/// A fault among the first tokens is the fault of all of them.
proof fn lemma_tokens_fault_first(tokens: Seq<TokenModel>, n: int)
    requires
        0 <= n <= tokens.len(),
        tokens_fault(tokens.take(n)) is Some,
    ensures
        tokens_fault(tokens) == tokens_fault(tokens.take(n)),
    decreases tokens.len() - n,
{
    if n < tokens.len() {
        assert(tokens.take(n + 1).drop_last() =~= tokens.take(n));
        lemma_tokens_fault_first(tokens, n + 1);
    } else {
        assert(tokens.take(n) =~= tokens);
    }
}

/// A fault among the first segments is the fault of all of them.
proof fn lemma_segments_fault_first(segments: Seq<Seq<TokenModel>>, n: int)
    requires
        0 <= n <= segments.len(),
        segments_fault(segments.take(n)) is Some,
    ensures
        segments_fault(segments) == segments_fault(segments.take(n)),
    decreases segments.len() - n,
{
    if n < segments.len() {
        assert(segments.take(n + 1).drop_last() =~= segments.take(n));
        lemma_segments_fault_first(segments, n + 1);
    } else {
        assert(segments.take(n) =~= segments);
    }
}

/// The range names a part of the sentence that is not empty, and every
/// byte of it has its times.
pub open spec fn is_timed(s: Stamps, r: Range<usize>) -> bool {
    &&& is_slice(s.sentence, r.start as int, r.end as int)
    &&& r.start < s.starts.len()
    &&& 0 < r.end <= s.ends.len()
}

/// Every range names a part of the sentence whose bytes have their times.
pub open spec fn all_timed(s: Stamps, ranges: Seq<Range<usize>>) -> bool {
    forall|k: int| 0 <= k < ranges.len() ==> is_timed(s, #[trigger] ranges[k])
}

/// The times of the part that the range names: from the start of its first
/// byte to the end of its last.
pub open spec fn span_at(s: Stamps, r: Range<usize>) -> Span {
    Span { start: s.starts[r.start as int], end: s.ends[r.end - 1] }
}

/// The times of the parts that the ranges name.
pub open spec fn spans_at(s: Stamps, ranges: Seq<Range<usize>>) -> Seq<Span> {
    ranges.map_values(|r: Range<usize>| span_at(s, r))
}

/// The tokens that the ranges name in the sentence, each with the time at
/// which its first byte begins and the time at which its last byte ends;
/// or nothing, where a range names no part of the sentence or a part
/// without times.
pub fn source_tokens(stamped: &Stamped, ranges: &Vec<Range<usize>>) -> (r: Option<
    Vec<SourceToken>,
>)
    ensures
        r is Some <==> all_timed(stamped.deep_view(), ranges@),
        r matches Some(tokens) ==> {
            &&& source_texts(tokens@) == parts_of(stamped.sentence@, ranges@)
            &&& spans_of(tokens@) == spans_at(stamped.deep_view(), ranges@)
        },
{
    let ghost s = stamped.deep_view();
    let mut tokens: Vec<SourceToken> = Vec::new();
    let mut k: usize = 0;
    while k < ranges.len()
        invariant
            s == stamped.deep_view(),
            k <= ranges.len(),
            tokens.len() == k,
            forall|t: int| 0 <= t < k ==> is_timed(s, #[trigger] ranges@[t]),
            forall|t: int|
                0 <= t < k ==> (#[trigger] tokens@[t]).text@ == part_of(
                    s.sentence,
                    ranges@[t].start as int,
                    ranges@[t].end as int,
                ),
            forall|t: int| 0 <= t < k ==> (#[trigger] tokens@[t]).span() == span_at(s, ranges@[t]),
        decreases ranges.len() - k,
    {
        let start = ranges[k].start;
        let end = ranges[k].end;
        let text = match slice_of(stamped.sentence.as_str(), start, end) {
            Some(part) => {
                proof {
                    vstd::utf8::encode_utf8_decode_utf8(part@);
                }
                part.to_owned()
            },
            None => {
                return None;
            },
        };
        if start >= stamped.byte_starts.len() || end == 0 || end - 1 >= stamped.byte_ends.len() {
            return None;
        }
        tokens.push(
            SourceToken { text, start: stamped.byte_starts[start], end: stamped.byte_ends[end - 1] },
        );
        k += 1;
    }
    assert(source_texts(tokens@) =~= parts_of(s.sentence, ranges@));
    assert(spans_of(tokens@) =~= spans_at(s, ranges@));
    Some(tokens)
}

/// Every byte of the sentence has a start and an end, and there are no
/// others.
pub open spec fn is_stamped(s: Stamps) -> bool {
    s.starts.len() == byte_len(s.sentence) && s.ends.len() == byte_len(s.sentence)
}

/// Adding tokens keeps every byte stamped.
proof fn lemma_with_tokens_stamped(s: Stamps, tokens: Seq<TokenModel>)
    requires
        is_stamped(s),
    ensures
        is_stamped(with_tokens(s, tokens)),
    decreases tokens.len(),
{
    if tokens.len() > 0 {
        lemma_with_tokens_stamped(s, tokens.drop_last());
        lemma_encode_concat(with_tokens(s, tokens.drop_last()).sentence, tokens.last().text);
    }
}

/// In what the segments of a transcript are put together to, every byte
/// of the sentence has a start and an end.
pub proof fn lemma_stamps_are_stamped(segments: Seq<Seq<TokenModel>>)
    ensures
        is_stamped(stamps_of(segments)),
    decreases segments.len(),
{
    if segments.len() > 0 {
        lemma_stamps_are_stamped(segments.drop_last());
        let before = stamps_of(segments.drop_last());
        lemma_with_tokens_stamped(before, segments.last());
        let t = with_tokens(before, segments.last());
        let line_break = seq!['\n'];
        assert(t.sentence.push('\n') =~= t.sentence + line_break);
        lemma_encode_concat(t.sentence, line_break);
        assert(byte_len(line_break) == 1) by {
            assert(line_break.drop_first().len() == 0);
            assert(vstd::utf8::encode_utf8(line_break.drop_first()) =~= Seq::<u8>::empty());
            assert(vstd::utf8::encode_utf8(line_break) =~= vstd::utf8::encode_scalar(
                '\n' as u32,
            ));
        }
    }
}

} // verus!
