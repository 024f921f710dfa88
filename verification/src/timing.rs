//! Start and end times for the lines of the reference text.
//!
//! A line takes its times from the source tokens that were paired with its
//! words. Where it has none at its start or end, its neighbours and the end
//! of the audio stand in. No line starts before the line emitted before it
//! has ended.

use vstd::prelude::*;
use vstd::string::StringExecFns;
use crate::align::{text_align, text_alignment};
use crate::lines::{
    has_reference_side, line_has_reference, lines_of, pair_up, paired, segment_lines,
    source_texts, spans_of, AlignedPair, PairModel, SourceToken, Span,
};
use crate::token::views_of;
use crate::text::{char_is_alphanumeric, is_alphanumeric, trim, trimmed};

verus! {

/// A line of the reference text with the times between which it is spoken,
/// in hundredths of a second.
#[derive(Clone, Debug, PartialEq, Eq)]
pub struct TimedLine {
    pub start: i64,
    pub end: i64,
    pub text: String,
}

/// A [`TimedLine`] as a mathematical value.
pub struct Cue {
    pub start: i64,
    pub end: i64,
    pub text: Seq<char>,
}

impl DeepView for TimedLine {
    type V = Cue;

    open spec fn deep_view(&self) -> Cue {
        Cue { start: self.start, end: self.end, text: self.text@ }
    }
}

/// A line that has text and got no cue, because its start or its end
/// cannot be told.
#[derive(Clone, Debug, PartialEq, Eq)]
pub struct DroppedLine {
    /// The position of the line among the lines.
    pub line: usize,
    pub text: String,
}

/// A [`DroppedLine`] as a mathematical value.
pub struct Dropped {
    pub line: usize,
    pub text: Seq<char>,
}

impl DeepView for DroppedLine {
    type V = Dropped;

    open spec fn deep_view(&self) -> Dropped {
        Dropped { line: self.line, text: self.text@ }
    }
}

/// What became of the lines: the cues of those that got both times, and
/// those that have text and got no cue.
#[derive(Clone, Debug, PartialEq, Eq)]
pub struct Timing {
    pub cues: Vec<TimedLine>,
    pub dropped: Vec<DroppedLine>,
}

/// A source token with no reference token to it.
pub open spec fn is_filler(p: PairModel) -> bool {
    p.source is Some && p.reference is None
}

/// A source token paired with a reference token.
pub open spec fn is_match(p: PairModel) -> bool {
    p.source is Some && p.reference is Some
}

/// Every character of the text is a letter or a digit.
pub open spec fn all_alphanumeric(text: Seq<char>) -> bool {
    forall|k: int| 0 <= k < text.len() ==> char_is_alphanumeric(#[trigger] text[k])
}

/// No character of the text is a letter or a digit.
pub open spec fn none_alphanumeric(text: Seq<char>) -> bool {
    forall|k: int| 0 <= k < text.len() ==> !char_is_alphanumeric(#[trigger] text[k])
}

/// A source token at the end of a line that is taken for silence or noise:
/// it has no reference token, or one that is more than a plain word.
pub open spec fn is_trailing_noise(p: PairModel) -> bool {
    p.source is Some && !(p.reference matches Some(t) && all_alphanumeric(t))
}

/// A reference token of punctuation that no source token was paired with.
pub open spec fn is_unheard_punctuation(p: PairModel) -> bool {
    p.source is None && (p.reference matches Some(t) && none_alphanumeric(t))
}

/// How many pairs at the head of the line are filler.
pub open spec fn leading_filler(line: Seq<PairModel>) -> nat
    decreases line.len(),
{
    if line.len() > 0 && is_filler(line.first()) {
        1 + leading_filler(line.drop_first())
    } else {
        0
    }
}

/// How many pairs at the end of the line are trailing noise.
pub open spec fn trailing_noise(line: Seq<PairModel>) -> nat
    decreases line.len(),
{
    if line.len() > 0 && is_trailing_noise(line.last()) {
        1 + trailing_noise(line.drop_last())
    } else {
        0
    }
}

/// How many pairs at the end of the line are unheard punctuation.
pub open spec fn trailing_punctuation(line: Seq<PairModel>) -> nat
    decreases line.len(),
{
    if line.len() > 0 && is_unheard_punctuation(line.last()) {
        1 + trailing_punctuation(line.drop_last())
    } else {
        0
    }
}

/// The start that the line has of itself: that of the source token paired
/// with its first word, where only filler comes before it; else the end of
/// the filler it begins with; else none.
pub open spec fn own_start(line: Seq<PairModel>) -> Option<i64> {
    let k = leading_filler(line) as int;
    if k < line.len() && is_match(line[k]) {
        Some(line[k].source->0.start)
    } else if 0 < k <= line.len() {
        Some(line[k - 1].source->0.end)
    } else {
        None
    }
}

/// The end that the line has of itself. Trailing noise is cut off first,
/// then unheard punctuation before it. If a paired source token comes
/// last in what is left, the line ends where that token ends; else it
/// ends where the noise began; else it has no end of itself.
pub open spec fn own_end(line: Seq<PairModel>) -> Option<i64> {
    let noise = trailing_noise(line) as int;
    let heard = line.take(line.len() - noise);
    let kept = heard.take(heard.len() - trailing_punctuation(heard));
    if kept.len() > 0 && is_match(kept.last()) {
        Some(kept.last().source->0.end)
    } else if 0 < noise <= line.len() {
        Some(line[line.len() - noise].source->0.start)
    } else {
        None
    }
}

/// The start of the first source token of the line.
pub open spec fn first_source_start(line: Seq<PairModel>) -> Option<i64>
    decreases line.len(),
{
    if line.len() == 0 {
        None
    } else if line.first().source is Some {
        Some(line.first().source->0.start)
    } else {
        first_source_start(line.drop_first())
    }
}

/// The end of the last source token of the line.
pub open spec fn last_source_end(line: Seq<PairModel>) -> Option<i64>
    decreases line.len(),
{
    if line.len() == 0 {
        None
    } else if line.last().source is Some {
        Some(line.last().source->0.end)
    } else {
        last_source_end(line.drop_last())
    }
}

/// The later of a start and the end of the cue before it.
pub open spec fn not_before(start: Option<i64>, earlier_end: Option<i64>) -> Option<i64> {
    match (start, earlier_end) {
        (Some(s), Some(e)) => if s < e {
            Some(e)
        } else {
            Some(s)
        },
        _ => start,
    }
}

/// The start of line `i`: its own, or else the end of the last source
/// token of the line before it, or else, for the first line, zero; and in
/// no case earlier than `earlier_end`, the end of the cue emitted last.
pub open spec fn start_of(lines: Seq<Seq<PairModel>>, i: int, earlier_end: Option<i64>) -> Option<
    i64,
> {
    let start = if own_start(lines[i]) is Some {
        own_start(lines[i])
    } else if i > 0 {
        last_source_end(lines[i - 1])
    } else {
        Some(0i64)
    };
    not_before(start, earlier_end)
}

/// The end of line `i`: its own, or else the start of the first source
/// token of the line after it, or else, for the last line, the end of the
/// audio, and for another the end of its own last source token.
pub open spec fn end_of(lines: Seq<Seq<PairModel>>, i: int, audio_end: Option<i64>) -> Option<
    i64,
> {
    if own_end(lines[i]) is Some {
        own_end(lines[i])
    } else if i + 1 < lines.len() && first_source_start(lines[i + 1]) is Some {
        first_source_start(lines[i + 1])
    } else if i == lines.len() - 1 {
        audio_end
    } else {
        last_source_end(lines[i])
    }
}

/// The reference texts of the line, one after the other.
pub open spec fn reference_text(line: Seq<PairModel>) -> Seq<char>
    decreases line.len(),
{
    if line.len() == 0 {
        Seq::empty()
    } else {
        reference_text(line.drop_last()) + match line.last().reference {
            Some(t) => t,
            None => Seq::empty(),
        }
    }
}

/// The text of the line's cue: its reference texts without the whitespace
/// around them.
pub open spec fn text_of(line: Seq<PairModel>) -> Seq<char> {
    trimmed(reference_text(line))
}

/// The end of the last of the cues, if there is one.
pub open spec fn last_end(cues: Seq<Cue>) -> Option<i64> {
    if cues.len() > 0 {
        Some(cues.last().end)
    } else {
        None
    }
}

/// The cue of line `i`, given the cues emitted before it: none for a line
/// without a reference side, and none for a line whose start or end cannot
/// be told.
pub open spec fn cue_of(
    lines: Seq<Seq<PairModel>>,
    i: int,
    audio_end: Option<i64>,
    earlier: Seq<Cue>,
) -> Option<Cue> {
    cue_after(lines, i, audio_end, last_end(earlier))
}

/// The cue of line `i`, where the cue emitted last ended at `earlier_end`.
pub open spec fn cue_after(
    lines: Seq<Seq<PairModel>>,
    i: int,
    audio_end: Option<i64>,
    earlier_end: Option<i64>,
) -> Option<Cue> {
    let start = start_of(lines, i, earlier_end);
    let end = end_of(lines, i, audio_end);
    if has_reference_side(lines[i]) && start is Some && end is Some {
        Some(Cue { start: start->0, end: end->0, text: text_of(lines[i]) })
    } else {
        None
    }
}

/// The cues of the first `n` lines, in order.
pub open spec fn cues_of(lines: Seq<Seq<PairModel>>, audio_end: Option<i64>, n: nat) -> Seq<Cue>
    decreases n,
{
    if n == 0 {
        Seq::empty()
    } else {
        let earlier = cues_of(lines, audio_end, (n - 1) as nat);
        match cue_of(lines, n - 1, audio_end, earlier) {
            Some(cue) => earlier.push(cue),
            None => earlier,
        }
    }
}

/// Those of the first `n` lines that have a reference side and get no
/// cue, in order.
pub open spec fn dropped_of(lines: Seq<Seq<PairModel>>, audio_end: Option<i64>, n: nat) -> Seq<
    Dropped,
>
    decreases n,
{
    if n == 0 {
        Seq::empty()
    } else {
        let before = dropped_of(lines, audio_end, (n - 1) as nat);
        let earlier = cues_of(lines, audio_end, (n - 1) as nat);
        if has_reference_side(lines[n - 1]) && cue_of(lines, n - 1, audio_end, earlier) is None {
            before.push(Dropped { line: (n - 1) as usize, text: text_of(lines[n - 1]) })
        } else {
            before
        }
    }
}

/// No cue starts before the cue before it has ended.
pub open spec fn never_overlapping(cues: Seq<Cue>) -> bool {
    forall|k: int| 0 <= k < cues.len() - 1 ==> (#[trigger] cues[k]).end <= cues[k + 1].start
}

/// Whatever the lines, and whatever times their source tokens carry, the
/// cues of the first `n` lines never overlap: each starts no earlier than
/// the one before it ends.
pub proof fn lemma_cues_never_overlap(
    lines: Seq<Seq<PairModel>>,
    audio_end: Option<i64>,
    n: nat,
)
    ensures
        never_overlapping(cues_of(lines, audio_end, n)),
    decreases n,
{
    if n > 0 {
        lemma_cues_never_overlap(lines, audio_end, (n - 1) as nat);
        let earlier = cues_of(lines, audio_end, (n - 1) as nat);
        let cues = cues_of(lines, audio_end, n);
        assert forall|k: int| 0 <= k < cues.len() - 1 implies (#[trigger] cues[k]).end <= cues[k
            + 1].start by {
            if k + 1 < earlier.len() {
                assert(cues[k] == earlier[k]);
                assert(cues[k + 1] == earlier[k + 1]);
            } else {
                assert(cues[k] == earlier.last());
            }
        }
    }
}

/// A count of leading filler is what it is counted to be.
proof fn lemma_leading_filler(line: Seq<PairModel>, n: int)
    requires
        0 <= n <= line.len(),
        forall|k: int| 0 <= k < n ==> is_filler(#[trigger] line[k]),
        n < line.len() ==> !is_filler(line[n]),
    ensures
        leading_filler(line) == n,
    decreases n,
{
    if n > 0 {
        assert(is_filler(line[0]));
        let rest = line.drop_first();
        assert forall|k: int| 0 <= k < n - 1 implies is_filler(#[trigger] rest[k]) by {
            assert(rest[k] == line[k + 1]);
        }
        if n - 1 < rest.len() {
            assert(rest[n - 1] == line[n]);
        }
        lemma_leading_filler(rest, n - 1);
    }
}

/// A count of trailing noise is what it is counted to be.
proof fn lemma_trailing_noise(line: Seq<PairModel>, n: int)
    requires
        0 <= n <= line.len(),
        forall|k: int| line.len() - n <= k < line.len() ==> is_trailing_noise(#[trigger] line[k]),
        n < line.len() ==> !is_trailing_noise(line[line.len() - n - 1]),
    ensures
        trailing_noise(line) == n,
    decreases n,
{
    if n > 0 {
        assert(is_trailing_noise(line[line.len() - 1]));
        let rest = line.drop_last();
        assert forall|k: int| rest.len() - (n - 1) <= k < rest.len() implies is_trailing_noise(
            #[trigger] rest[k],
        ) by {
            assert(rest[k] == line[k]);
        }
        if n - 1 < rest.len() {
            assert(rest[rest.len() - n] == line[line.len() - n - 1]);
        }
        lemma_trailing_noise(rest, n - 1);
    }
}

/// A count of trailing punctuation is what it is counted to be.
proof fn lemma_trailing_punctuation(line: Seq<PairModel>, n: int)
    requires
        0 <= n <= line.len(),
        forall|k: int|
            line.len() - n <= k < line.len() ==> is_unheard_punctuation(#[trigger] line[k]),
        n < line.len() ==> !is_unheard_punctuation(line[line.len() - n - 1]),
    ensures
        trailing_punctuation(line) == n,
    decreases n,
{
    if n > 0 {
        assert(is_unheard_punctuation(line[line.len() - 1]));
        let rest = line.drop_last();
        assert forall|k: int|
            rest.len() - (n - 1) <= k < rest.len() implies is_unheard_punctuation(
            #[trigger] rest[k],
        ) by {
            assert(rest[k] == line[k]);
        }
        if n - 1 < rest.len() {
            assert(rest[rest.len() - n] == line[line.len() - n - 1]);
        }
        lemma_trailing_punctuation(rest, n - 1);
    }
}

/// Whether every character of the text is a letter or a digit.
pub fn is_all_alphanumeric(text: &str) -> (r: bool)
    ensures
        r == all_alphanumeric(text@),
{
    broadcast use vstd::string::group_string_axioms;

    for c in it: text.chars()
        invariant
            it.seq() == text@,
            forall|k: int| 0 <= k < it.index() ==> char_is_alphanumeric(#[trigger] text@[k]),
    {
        if !is_alphanumeric(c) {
            assert(!char_is_alphanumeric(text@[it.index()]));
            return false;
        }
    }
    true
}

/// Whether no character of the text is a letter or a digit.
pub fn is_none_alphanumeric(text: &str) -> (r: bool)
    ensures
        r == none_alphanumeric(text@),
{
    broadcast use vstd::string::group_string_axioms;

    for c in it: text.chars()
        invariant
            it.seq() == text@,
            forall|k: int| 0 <= k < it.index() ==> !char_is_alphanumeric(#[trigger] text@[k]),
    {
        if is_alphanumeric(c) {
            assert(char_is_alphanumeric(text@[it.index()]));
            return false;
        }
    }
    true
}

/// Whether the pair is trailing noise.
fn pair_is_trailing_noise(p: &AlignedPair) -> (r: bool)
    ensures
        r == is_trailing_noise(p.deep_view()),
{
    match (&p.source, &p.reference) {
        (Some(_), Some(t)) => !is_all_alphanumeric(t.as_str()),
        (Some(_), None) => true,
        _ => false,
    }
}

/// Whether the pair is unheard punctuation.
fn pair_is_unheard_punctuation(p: &AlignedPair) -> (r: bool)
    ensures
        r == is_unheard_punctuation(p.deep_view()),
{
    match (&p.source, &p.reference) {
        (None, Some(t)) => is_none_alphanumeric(t.as_str()),
        _ => false,
    }
}

/// The start that the line has of itself.
pub fn line_own_start(line: &Vec<AlignedPair>) -> (r: Option<i64>)
    ensures
        r == own_start(line.deep_view()),
{
    let ghost model = line.deep_view();
    let mut start: Option<i64> = None;
    let mut k: usize = 0;
    while k < line.len()
        invariant
            model == line.deep_view(),
            k <= line.len(),
            forall|t: int| 0 <= t < k ==> is_filler(#[trigger] model[t]),
            k == 0 ==> start is None,
            k > 0 ==> start == Some(model[k - 1].source->0.end),
        ensures
            k < line.len() ==> !is_filler(model[k as int]),
        decreases line.len() - k,
    {
        match (&line[k].source, &line[k].reference) {
            (Some(x), None) => {
                start = Some(x.end);
                k += 1;
            },
            _ => {
                break ;
            },
        }
    }
    proof {
        lemma_leading_filler(model, k as int);
    }
    if k < line.len() {
        match (&line[k].source, &line[k].reference) {
            (Some(x), Some(_)) => {
                start = Some(x.start);
            },
            _ => {},
        }
    }
    start
}

/// The end that the line has of itself.
pub fn line_own_end(line: &Vec<AlignedPair>) -> (r: Option<i64>)
    ensures
        r == own_end(line.deep_view()),
{
    let ghost model = line.deep_view();
    let n = line.len();
    let mut end: Option<i64> = None;
    let mut k: usize = n;
    while k > 0
        invariant
            model == line.deep_view(),
            n == line.len(),
            k <= n,
            forall|t: int| k <= t < n ==> is_trailing_noise(#[trigger] model[t]),
            k == n ==> end is None,
            k < n ==> end == Some(model[k as int].source->0.start),
        ensures
            k > 0 ==> !is_trailing_noise(model[k - 1]),
        decreases k,
    {
        if pair_is_trailing_noise(&line[k - 1]) {
            match &line[k - 1].source {
                Some(x) => {
                    end = Some(x.start);
                },
                None => {},
            }
            k -= 1;
        } else {
            break ;
        }
    }
    let ghost heard = model.take(k as int);
    proof {
        lemma_trailing_noise(model, n - k);
    }
    let mut m: usize = k;
    while m > 0
        invariant
            model == line.deep_view(),
            heard == model.take(k as int),
            m <= k <= n,
            n == line.len(),
            forall|t: int| m <= t < k ==> is_unheard_punctuation(#[trigger] heard[t]),
        ensures
            m > 0 ==> !is_unheard_punctuation(heard[m - 1]),
        decreases m,
    {
        if pair_is_unheard_punctuation(&line[m - 1]) {
            m -= 1;
        } else {
            assert(heard[m - 1] == model[m - 1]);
            break ;
        }
    }
    proof {
        lemma_trailing_punctuation(heard, k - m);
        assert(heard.take(m as int) =~= model.take(m as int));
    }
    if m > 0 {
        match (&line[m - 1].source, &line[m - 1].reference) {
            (Some(x), Some(_)) => {
                end = Some(x.end);
            },
            _ => {},
        }
    }
    end
}

/// The start of the first source token of the line.
pub fn line_first_source_start(line: &Vec<AlignedPair>) -> (r: Option<i64>)
    ensures
        r == first_source_start(line.deep_view()),
{
    let ghost model = line.deep_view();
    let mut k: usize = 0;
    proof {
        assert(model.skip(0) =~= model);
    }
    while k < line.len()
        invariant
            model == line.deep_view(),
            k <= line.len(),
            first_source_start(model) == first_source_start(model.skip(k as int)),
        decreases line.len() - k,
    {
        proof {
            assert(model.skip(k as int).first() == model[k as int]);
            assert(model.skip(k as int).drop_first() =~= model.skip(k + 1));
        }
        match &line[k].source {
            Some(x) => {
                return Some(x.start);
            },
            None => {},
        }
        k += 1;
    }
    None
}

/// The end of the last source token of the line.
pub fn line_last_source_end(line: &Vec<AlignedPair>) -> (r: Option<i64>)
    ensures
        r == last_source_end(line.deep_view()),
{
    let ghost model = line.deep_view();
    let mut k: usize = line.len();
    proof {
        assert(model.take(k as int) =~= model);
    }
    while k > 0
        invariant
            model == line.deep_view(),
            k <= line.len(),
            last_source_end(model) == last_source_end(model.take(k as int)),
        decreases k,
    {
        proof {
            assert(model.take(k as int).last() == model[k - 1]);
            assert(model.take(k as int).drop_last() =~= model.take(k - 1));
        }
        match &line[k - 1].source {
            Some(x) => {
                return Some(x.end);
            },
            None => {},
        }
        k -= 1;
    }
    None
}

/// The text of the line's cue.
pub fn line_text(line: &Vec<AlignedPair>) -> (r: String)
    ensures
        r@ == text_of(line.deep_view()),
{
    let ghost model = line.deep_view();
    let mut text = String::new();
    let mut k: usize = 0;
    while k < line.len()
        invariant
            model == line.deep_view(),
            k <= line.len(),
            text@ == reference_text(model.take(k as int)),
        decreases line.len() - k,
    {
        proof {
            assert(model.take(k + 1).last() == model[k as int]);
            assert(model.take(k + 1).drop_last() =~= model.take(k as int));
        }
        match &line[k].reference {
            Some(t) => {
                text.append(t.as_str());
            },
            None => {
                assert(text@ + Seq::<char>::empty() =~= text@);
            },
        }
        k += 1;
    }
    proof {
        assert(model.take(k as int) =~= model);
    }
    trim(text.as_str()).to_owned()
}

/// The start of line `i`, which is not to lie before `earlier_end`, the
/// end of the cue emitted last.
pub fn line_start(lines: &Vec<Vec<AlignedPair>>, i: usize, earlier_end: Option<i64>) -> (r: Option<
    i64,
>)
    requires
        i < lines.len(),
    ensures
        r == start_of(lines.deep_view(), i as int, earlier_end),
{
    assert(lines[i as int].deep_view() == lines.deep_view()[i as int]);
    let start = match line_own_start(&lines[i]) {
        Some(s) => Some(s),
        None => if i > 0 {
            assert(lines[i - 1].deep_view() == lines.deep_view()[i - 1]);
            line_last_source_end(&lines[i - 1])
        } else {
            Some(0)
        },
    };
    match (start, earlier_end) {
        (Some(s), Some(e)) => if s < e {
            Some(e)
        } else {
            Some(s)
        },
        _ => start,
    }
}

/// The end of line `i`, where the audio ends at `audio_end`.
pub fn line_end(lines: &Vec<Vec<AlignedPair>>, i: usize, audio_end: Option<i64>) -> (r: Option<i64>)
    requires
        i < lines.len(),
    ensures
        r == end_of(lines.deep_view(), i as int, audio_end),
{
    assert(lines[i as int].deep_view() == lines.deep_view()[i as int]);
    let own = line_own_end(&lines[i]);
    if own.is_some() {
        return own;
    }
    let next = if i + 1 < lines.len() {
        assert(lines[i + 1].deep_view() == lines.deep_view()[i + 1]);
        line_first_source_start(&lines[i + 1])
    } else {
        None
    };
    if next.is_some() {
        next
    } else if i == lines.len() - 1 {
        audio_end
    } else {
        line_last_source_end(&lines[i])
    }
}

/// What became of one line.
pub enum LineOutcome {
    /// The line has no reference side.
    Nothing,
    /// The line has got a cue.
    Timed(TimedLine),
    /// The line has text, and its start or its end cannot be told.
    Dropped(String),
}

/// Gives line `i` its cue, where the cue emitted last ended at
/// `earlier_end` and the audio ends at `audio_end`.
pub fn line_cue(
    lines: &Vec<Vec<AlignedPair>>,
    i: usize,
    audio_end: Option<i64>,
    earlier_end: Option<i64>,
) -> (r: LineOutcome)
    requires
        i < lines.len(),
    ensures
        match r {
            LineOutcome::Nothing => !has_reference_side(lines.deep_view()[i as int]),
            LineOutcome::Timed(line) => cue_after(lines.deep_view(), i as int, audio_end, earlier_end)
                == Some(line.deep_view()),
            LineOutcome::Dropped(text) => {
                &&& has_reference_side(lines.deep_view()[i as int])
                &&& cue_after(lines.deep_view(), i as int, audio_end, earlier_end) is None
                &&& text@ == text_of(lines.deep_view()[i as int])
            },
        },
{
    assert(lines[i as int].deep_view() == lines.deep_view()[i as int]);
    if !line_has_reference(&lines[i]) {
        return LineOutcome::Nothing;
    }
    let start = line_start(lines, i, earlier_end);
    let end = line_end(lines, i, audio_end);
    let text = line_text(&lines[i]);
    match (start, end) {
        (Some(start), Some(end)) => LineOutcome::Timed(TimedLine { start, end, text }),
        _ => LineOutcome::Dropped(text),
    }
}

/// Gives each line its start and end, in order.
///
/// A line is taken to begin where the source token paired with its first
/// word begins, and to end where the one paired with its last word ends,
/// not counting noise heard after it. A line for which that cannot be told
/// borrows from the lines next to it, and the last line from `audio_end`,
/// the time at which the audio ends. No cue starts before the cue before
/// it ends. A line without a reference side has no cue and is passed over;
/// a line with a reference side whose start or end cannot be told has no
/// cue either, and is reported.
pub fn resolve_lines(lines: &Vec<Vec<AlignedPair>>, audio_end: Option<i64>) -> (r: Timing)
    ensures
        r.cues.deep_view() == cues_of(lines.deep_view(), audio_end, lines.len() as nat),
        r.dropped.deep_view() == dropped_of(lines.deep_view(), audio_end, lines.len() as nat),
        never_overlapping(r.cues.deep_view()),
{
    let ghost model = lines.deep_view();
    let mut cues: Vec<TimedLine> = Vec::new();
    let mut dropped: Vec<DroppedLine> = Vec::new();
    let mut earlier_end: Option<i64> = None;
    let mut i: usize = 0;
    while i < lines.len()
        invariant
            model == lines.deep_view(),
            i <= lines.len(),
            cues.deep_view() == cues_of(model, audio_end, i as nat),
            dropped.deep_view() == dropped_of(model, audio_end, i as nat),
            earlier_end == last_end(cues.deep_view()),
        decreases lines.len() - i,
    {
        let ghost earlier = cues.deep_view();
        let ghost reported = dropped.deep_view();
        match line_cue(lines, i, audio_end, earlier_end) {
            LineOutcome::Nothing => {},
            LineOutcome::Timed(line) => {
                let ghost cue = line.deep_view();
                earlier_end = Some(line.end);
                cues.push(line);
                assert(cues.deep_view() =~= earlier.push(cue));
            },
            LineOutcome::Dropped(text) => {
                let ghost model_text = text@;
                dropped.push(DroppedLine { line: i, text });
                assert(dropped.deep_view() =~= reported.push(
                    Dropped { line: i, text: model_text },
                ));
            },
        }
        i += 1;
    }
    proof {
        lemma_cues_never_overlap(model, audio_end, lines.len() as nat);
    }
    Timing { cues, dropped }
}

/// The lines that the reference texts fall into once they are aligned
/// with the texts of the source tokens, whose times are `spans`.
pub open spec fn aligned_lines(
    source: Seq<Seq<char>>,
    spans: Seq<Span>,
    reference: Seq<Seq<char>>,
) -> Seq<Seq<PairModel>> {
    lines_of(paired(text_alignment(source, reference), spans, reference))
}

/// The cues of the lines that the reference texts fall into once they are
/// aligned with the texts of the source tokens.
pub open spec fn timed(
    source: Seq<Seq<char>>,
    spans: Seq<Span>,
    reference: Seq<Seq<char>>,
    audio_end: Option<i64>,
) -> Seq<Cue> {
    let lines = aligned_lines(source, spans, reference);
    cues_of(lines, audio_end, lines.len())
}

/// The lines that have text and get no cue, among the lines that the
/// reference texts fall into once they are aligned with the texts of the
/// source tokens.
pub open spec fn untimed(
    source: Seq<Seq<char>>,
    spans: Seq<Span>,
    reference: Seq<Seq<char>>,
    audio_end: Option<i64>,
) -> Seq<Dropped> {
    let lines = aligned_lines(source, spans, reference);
    dropped_of(lines, audio_end, lines.len())
}

/// The texts of the source tokens, each in a string of its own.
fn texts_of_source(source: &Vec<SourceToken>) -> (r: Vec<String>)
    ensures
        views_of(r@) == source_texts(source@),
        r.len() == source.len(),
{
    let mut r: Vec<String> = Vec::new();
    let mut k: usize = 0;
    while k < source.len()
        invariant
            k <= source.len(),
            r.len() == k,
            forall|t: int| 0 <= t < k ==> (#[trigger] r@[t])@ == source@[t].text@,
        decreases source.len() - k,
    {
        r.push(source[k].text.clone());
        k += 1;
    }
    assert(views_of(r@) =~= source_texts(source@));
    r
}

/// Times the lines of a reference text from a transcript of the same
/// speech: aligns the tokens of the two by their texts, groups the pairs
/// into the lines of the reference text, and gives each line its start and
/// end. `audio_end` is the time at which the audio ends, if that is known.
pub fn time_lines(source: &Vec<SourceToken>, reference: &Vec<String>, audio_end: Option<i64>) -> (r:
    Timing)
    ensures
        r.cues.deep_view() == timed(
            source_texts(source@),
            spans_of(source@),
            views_of(reference@),
            audio_end,
        ),
        r.dropped.deep_view() == untimed(
            source_texts(source@),
            spans_of(source@),
            views_of(reference@),
            audio_end,
        ),
        never_overlapping(r.cues.deep_view()),
{
    let source_text = texts_of_source(source);
    let mut reference_text: Vec<String> = Vec::new();
    let mut k: usize = 0;
    while k < reference.len()
        invariant
            k <= reference.len(),
            reference_text.len() == k,
            forall|t: int| 0 <= t < k ==> (#[trigger] reference_text@[t])@ == reference@[t]@,
        decreases reference.len() - k,
    {
        reference_text.push(reference[k].clone());
        k += 1;
    }
    assert(views_of(reference_text@) =~= views_of(reference@));
    let alignment = text_align(source_text, reference_text);
    let pairs = pair_up(&alignment, source, reference);
    let lines = segment_lines(pairs);
    resolve_lines(&lines, audio_end)
}

} // verus!
