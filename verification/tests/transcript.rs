use transcript_align::sync::{time_transcript, SyncError};
use transcript_align::text::decimal_text;
use transcript_align::timing::TimedLine;
use transcript_align::tokenize::{tokens_at, whitespace_ranges};
use transcript_align::transcript::{source_tokens, stamp_bytes, StampError, Stamped, Token};
use transcript_align::lines::SourceToken;
use transcript_align::vtt::{timed_lines_to_vtt, vtt_ts};

fn token(text: &str, start: i64, end: i64) -> Token {
    Token { start, end, text: text.to_string() }
}

fn cue(start: i64, end: i64, text: &str) -> TimedLine {
    TimedLine { start, end, text: text.to_string() }
}

#[test]
fn whitespace_cuts_between_words_and_spaces() {
    assert_eq!(whitespace_ranges("Hello world\n"), vec![0..5, 5..6, 6..11, 11..12]);
    assert_eq!(whitespace_ranges("a  b"), vec![0..1, 1..3, 3..4]);
    assert_eq!(whitespace_ranges("word"), vec![0..4]);
}

#[test]
fn leading_whitespace_is_in_no_token() {
    assert_eq!(whitespace_ranges("  \n a b "), vec![4..5, 5..6, 6..7, 7..8]);
    assert_eq!(whitespace_ranges(" \t\n"), Vec::<std::ops::Range<usize>>::new());
    assert_eq!(whitespace_ranges(""), Vec::<std::ops::Range<usize>>::new());
}

#[test]
fn tokens_are_cut_at_byte_offsets() {
    assert_eq!(whitespace_ranges("あい\u{3000}う é"), vec![0..6, 6..9, 9..12, 12..13, 13..15]);
}

#[test]
fn tokens_are_taken_from_their_ranges() {
    let text = "あい うé";
    let tokens = tokens_at(text, &whitespace_ranges(text));
    assert_eq!(
        tokens,
        Some(vec!["あい".to_string(), " ".to_string(), "うé".to_string()])
    );
    assert_eq!(tokens_at(text, &vec![3..6, 0..0, 7..12]).unwrap(), vec!["い", "", "うé"]);
    assert_eq!(tokens_at(text, &vec![]), Some(vec![]));
}

#[test]
fn ranges_that_name_no_text_give_no_tokens() {
    let text = "あい";
    assert_eq!(tokens_at(text, &vec![0..3, 1..3]), None);
    assert_eq!(tokens_at(text, &vec![0..2]), None);
    assert_eq!(tokens_at(text, &vec![0..7]), None);
    assert_eq!(tokens_at(text, &vec![6..3]), None);
}

#[test]
fn time_is_spread_evenly_over_bytes() {
    let segments = vec![vec![token("ab", 0, 10), token("cde", 10, 20)], vec![token("f", 30, 31)]];
    let stamped = stamp_bytes(&segments).unwrap();
    assert_eq!(stamped.sentence, "abcde\nf\n");
    assert_eq!(stamped.byte_starts, vec![0, 5, 10, 13, 16, 19, 30, 31]);
    assert_eq!(stamped.byte_ends, vec![5, 10, 13, 16, 19, 19, 31, 31]);
}

#[test]
fn time_is_spread_over_bytes_not_characters() {
    let stamped = stamp_bytes(&vec![vec![token("あ", 0, 9)]]).unwrap();
    assert_eq!(stamped.sentence, "あ\n");
    assert_eq!(stamped.byte_starts, vec![0, 3, 6, 9]);
    assert_eq!(stamped.byte_ends, vec![3, 6, 9, 9]);
}

#[test]
fn time_that_runs_backwards_is_spread_toward_zero() {
    let stamped = stamp_bytes(&vec![vec![token("abc", 10, 3)]]).unwrap();
    assert_eq!(stamped.byte_starts, vec![10, 8, 6, 4]);
    assert_eq!(stamped.byte_ends, vec![8, 6, 4, 4]);
}

#[test]
fn an_empty_segment_repeats_the_last_time() {
    let stamped = stamp_bytes(&vec![vec![token("a", 1, 2)], vec![]]).unwrap();
    assert_eq!(stamped.sentence, "a\n\n");
    assert_eq!(stamped.byte_starts, vec![1, 2, 2]);
    assert_eq!(stamped.byte_ends, vec![2, 2, 2]);
    let nothing = stamp_bytes(&vec![]).unwrap();
    assert_eq!(
        nothing,
        Stamped { sentence: String::new(), byte_starts: vec![], byte_ends: vec![] }
    );
}

#[test]
fn transcripts_that_cannot_be_stamped_say_why() {
    assert_eq!(stamp_bytes(&vec![vec![token("", 1, 2)]]), Err(StampError::EmptyToken));
    assert_eq!(stamp_bytes(&vec![vec![]]), Err(StampError::NothingHeard));
    assert_eq!(
        stamp_bytes(&vec![vec![token("a", i64::MIN, 1)]]),
        Err(StampError::TimeOverflow)
    );
    assert_eq!(
        stamp_bytes(&vec![vec![token("a", 0, 1), token("", 1, i64::MIN)]]),
        Err(StampError::TimeOverflow)
    );
    assert_eq!(
        stamp_bytes(&vec![vec![token("a", 0, 1)], vec![token("", 0, 1)], vec![]]),
        Err(StampError::EmptyToken)
    );
}

#[test]
fn source_tokens_take_their_times_from_their_bytes() {
    let stamped = stamp_bytes(&vec![vec![token("Hllo", 0, 100), token(" wrld", 100, 200)]]).unwrap();
    let ranges = whitespace_ranges(&stamped.sentence);
    assert_eq!(ranges, vec![0..4, 4..5, 5..9, 9..10]);
    assert_eq!(
        source_tokens(&stamped, &ranges),
        Some(vec![
            SourceToken { text: "Hllo".to_string(), start: 0, end: 100 },
            SourceToken { text: " ".to_string(), start: 100, end: 120 },
            SourceToken { text: "wrld".to_string(), start: 120, end: 200 },
            SourceToken { text: "\n".to_string(), start: 200, end: 200 },
        ])
    );
}

#[test]
fn source_ranges_must_name_timed_text() {
    let stamped = stamp_bytes(&vec![vec![token("ab", 0, 10)]]).unwrap();
    assert_eq!(source_tokens(&stamped, &vec![0..4]), None);
    assert_eq!(source_tokens(&stamped, &vec![0..0]), None);
    assert_eq!(source_tokens(&stamped, &vec![3..3]), None);
    assert_eq!(source_tokens(&stamped, &vec![2..1]), None);
    assert_eq!(
        source_tokens(&stamped, &vec![1..1]),
        Some(vec![SourceToken { text: String::new(), start: 5, end: 5 }])
    );
    let short = Stamped { sentence: "abc".to_string(), byte_starts: vec![0], byte_ends: vec![1] };
    assert_eq!(source_tokens(&short, &vec![0..2]), None);
    assert_eq!(source_tokens(&short, &vec![1..1]), None);
}

#[test]
fn a_transcript_times_the_reference_text() {
    let stamped = stamp_bytes(&vec![vec![token("Hllo", 0, 100), token(" wrld", 100, 200)]]).unwrap();
    let reference = "Hello world\n";
    let timing = time_transcript(
        &stamped,
        &whitespace_ranges(&stamped.sentence),
        reference,
        &whitespace_ranges(reference),
    )
    .unwrap();
    assert_eq!(timing.cues, vec![cue(0, 200, "Hello world")]);
    assert!(timing.dropped.is_empty());
}

#[test]
fn several_lines_are_timed_in_order() {
    let segments = vec![
        vec![token("um", 0, 20), token(" first", 20, 80), token(" line", 80, 120)],
        vec![token("second", 150, 210), token(" lime", 210, 250), token(".", 250, 251)],
    ];
    let stamped = stamp_bytes(&segments).unwrap();
    let reference = "First line\nSecond line.\nThird line\n";
    let timing = time_transcript(
        &stamped,
        &whitespace_ranges(&stamped.sentence),
        reference,
        &whitespace_ranges(reference),
    )
    .unwrap();
    assert_eq!(timing.cues.len(), 3);
    assert_eq!(timing.cues[0].text, "First line");
    assert_eq!(timing.cues[1].text, "Second line.");
    assert_eq!(timing.cues[2].text, "Third line");
    for k in 1..timing.cues.len() {
        assert!(timing.cues[k - 1].end <= timing.cues[k].start);
    }
    assert_eq!(timing.cues[0].start, 30);
    assert_eq!(timing.cues[2].end, 251);
}

#[test]
fn ranges_are_checked_before_anything_is_timed() {
    let stamped = stamp_bytes(&vec![vec![token("ab", 0, 10)]]).unwrap();
    assert_eq!(
        time_transcript(&stamped, &vec![0..9], "x", &vec![0..9]),
        Err(SyncError::SourceRange)
    );
    assert_eq!(
        time_transcript(&stamped, &vec![0..2], "x", &vec![0..9]),
        Err(SyncError::ReferenceRange)
    );
    let timing = time_transcript(&stamped, &vec![], "x", &vec![]).unwrap();
    assert!(timing.cues.is_empty() && timing.dropped.is_empty());
}

#[test]
fn times_are_written_as_hours_minutes_seconds() {
    assert_eq!(vtt_ts(0), "00:00:00.000");
    assert_eq!(vtt_ts(1), "00:00:00.010");
    assert_eq!(vtt_ts(123_456), "00:20:34.560");
    assert_eq!(vtt_ts(360_000), "01:00:00.000");
    assert_eq!(vtt_ts(36_000_000), "100:00:00.000");
    assert_eq!(vtt_ts(599), "00:00:05.990");
}

#[test]
fn negative_times_keep_their_sign_in_every_part() {
    assert_eq!(vtt_ts(-1), "00:00:00.-10");
    assert_eq!(vtt_ts(-123_456), "00:-20:-34.-560");
}

#[test]
fn the_largest_time_is_written_without_overflow() {
    assert_eq!(vtt_ts(i64::MAX), "25620477880152:09:18.070");
    assert_eq!(vtt_ts(i64::MIN), "-25620477880152:-9:-18.-80");
}

#[test]
fn cues_are_written_one_after_the_other() {
    let lines = vec![cue(0, 200, "Hello world"), cue(200, 450, "Second\nline")];
    assert_eq!(
        timed_lines_to_vtt("en", &lines),
        "WEBVTT\nKind: captions\nLanguagee: en\n\
         \n00:00:00.000 --> 00:00:02.000\nHello world\n\
         \n00:00:02.000 --> 00:00:04.500\nSecond\nline\n"
    );
    assert_eq!(timed_lines_to_vtt("ja", &vec![]), "WEBVTT\nKind: captions\nLanguagee: ja\n");
}

#[test]
fn a_cue_begins_with_an_empty_line() {
    assert_eq!(
        transcript_align::vtt::cue_to_vtt(&cue(150, 275, "text")),
        "\n00:00:01.500 --> 00:00:02.750\ntext\n"
    );
}

#[test]
fn written_times_keep_their_order() {
    let times = [0, 1, 9, 10, 99, 100, 5_999, 6_000, 359_999, 360_000, 3_599_999, 35_999_999];
    for pair in times.windows(2) {
        let (earlier, later) = (vtt_ts(pair[0]), vtt_ts(pair[1]));
        assert_eq!(earlier.len(), 12);
        assert!(earlier < later, "{earlier} {later}");
    }
    assert_eq!(vtt_ts(35_999_999), "99:59:59.990");
}

#[test]
fn numbers_are_written_in_decimal() {
    assert_eq!(decimal_text(0, 0), "0");
    assert_eq!(decimal_text(0, 3), "000");
    assert_eq!(decimal_text(7, 2), "07");
    assert_eq!(decimal_text(1234, 2), "1234");
    assert_eq!(decimal_text(-5, 2), "-5");
    assert_eq!(decimal_text(-5, 3), "-05");
    assert_eq!(decimal_text(-5, 0), "-5");
    assert_eq!(decimal_text(90, 4), "0090");
    assert_eq!(decimal_text(i128::MAX, 1), "170141183460469231731687303715884105727");
    assert_eq!(decimal_text(i128::MIN, 1), "-170141183460469231731687303715884105728");
    for n in [-1000i128, -99, -10, -1, 0, 1, 9, 10, 99, 100, 1001] {
        for width in 0..6usize {
            assert_eq!(decimal_text(n, width), format!("{:0width$}", n, width = width));
        }
    }
}

#[test]
fn whitespace_is_what_unicode_says_it_is() {
    let white = [
        '\u{9}', '\u{a}', '\u{b}', '\u{c}', '\u{d}', ' ', '\u{85}', '\u{a0}', '\u{1680}',
        '\u{2000}', '\u{2005}', '\u{200a}', '\u{2028}', '\u{2029}', '\u{202f}', '\u{205f}',
        '\u{3000}',
    ];
    for c in white {
        let text = format!("a{c}b");
        let n = c.len_utf8();
        assert_eq!(whitespace_ranges(&text), vec![0..1, 1..1 + n, 1 + n..2 + n]);
    }
    for c in ['\u{8}', '\u{e}', '\u{1f}', '\u{200b}', '\u{180e}', '\u{2060}', '\u{feff}', '_'] {
        let text = format!("a{c}b");
        assert_eq!(whitespace_ranges(&text), vec![0..text.len()]);
    }
}
