use transcript_align::lines::{
    has_line_break, line_has_reference, pair_up, segment_lines, AlignedPair, SourceToken, Span,
};
use transcript_align::timing::{
    is_all_alphanumeric, is_none_alphanumeric, line_first_source_start, line_last_source_end,
    line_own_end, line_own_start, line_text, resolve_lines, time_lines, DroppedLine, TimedLine,
};

fn heard(start: i64, end: i64) -> Option<Span> {
    Some(Span { start, end })
}

fn pair(source: Option<Span>, reference: Option<&str>) -> AlignedPair {
    AlignedPair { source, reference: reference.map(|t| t.to_string()) }
}

fn strings(texts: &[&str]) -> Vec<String> {
    texts.iter().map(|t| t.to_string()).collect()
}

fn cue(start: i64, end: i64, text: &str) -> TimedLine {
    TimedLine { start, end, text: text.to_string() }
}

fn dropped(line: usize, text: &str) -> DroppedLine {
    DroppedLine { line, text: text.to_string() }
}

#[test]
fn lines_end_with_the_pair_that_breaks() {
    let pairs = vec![
        pair(heard(0, 1), Some("a")),
        pair(None, Some("\n")),
        pair(heard(1, 2), None),
        pair(heard(2, 3), Some("b\n")),
        pair(None, Some("c")),
    ];
    let lines = segment_lines(pairs.clone());
    assert_eq!(
        lines,
        vec![pairs[0..2].to_vec(), pairs[2..4].to_vec(), pairs[4..5].to_vec()]
    );
}

#[test]
fn no_line_follows_the_last_break() {
    let pairs = vec![pair(heard(0, 1), Some("a")), pair(None, Some("\n"))];
    assert_eq!(segment_lines(pairs.clone()), vec![pairs]);
    assert_eq!(segment_lines(vec![]), Vec::<Vec<AlignedPair>>::new());
}

#[test]
fn a_last_line_without_reference_is_left_out() {
    let pairs = vec![
        pair(heard(0, 1), Some("a\n")),
        pair(heard(1, 2), None),
        pair(heard(2, 3), None),
    ];
    assert_eq!(segment_lines(pairs.clone()), vec![pairs[0..1].to_vec()]);
    let only_source = vec![pair(heard(1, 2), None)];
    assert_eq!(segment_lines(only_source), Vec::<Vec<AlignedPair>>::new());
}

#[test]
fn segmenting_twice_gives_the_same_lines() {
    let pairs = vec![
        pair(heard(0, 1), Some("a")),
        pair(None, Some("\n")),
        pair(heard(1, 2), None),
        pair(heard(2, 3), Some("b\n")),
        pair(None, Some("c")),
        pair(heard(3, 4), None),
    ];
    let once = segment_lines(pairs.clone());
    let twice = segment_lines(pairs);
    assert_eq!(once, twice);
    let again = segment_lines(once.concat());
    assert_eq!(again, once);
}

#[test]
fn line_breaks_are_found_anywhere_in_a_text() {
    assert!(has_line_break("\n"));
    assert!(has_line_break("a\nb"));
    assert!(!has_line_break("a b"));
    assert!(!has_line_break(""));
    assert!(!has_line_break("\r"));
}

#[test]
fn a_line_has_reference_if_any_pair_has() {
    assert!(line_has_reference(&vec![pair(heard(0, 1), None), pair(None, Some("x"))]));
    assert!(!line_has_reference(&vec![pair(heard(0, 1), None)]));
    assert!(!line_has_reference(&vec![]));
}

#[test]
fn indices_are_replaced_by_times_and_texts() {
    let source = vec![
        SourceToken { text: "x".to_string(), start: 3, end: 5 },
        SourceToken { text: "y".to_string(), start: 5, end: 9 },
    ];
    let reference = strings(&["p", "q"]);
    let alignment = vec![(Some(0), None), (Some(1), Some(0)), (None, Some(1))];
    assert_eq!(
        pair_up(&alignment, &source, &reference),
        vec![pair(heard(3, 5), None), pair(heard(5, 9), Some("p")), pair(None, Some("q"))]
    );
}

#[test]
fn alphanumeric_texts_are_told_apart() {
    assert!(is_all_alphanumeric("abc1"));
    assert!(is_all_alphanumeric(""));
    assert!(!is_all_alphanumeric("a b"));
    assert!(is_none_alphanumeric("., \n"));
    assert!(is_none_alphanumeric(""));
    assert!(!is_none_alphanumeric(".a."));
}

#[test]
fn a_line_starts_with_its_first_paired_word() {
    let line = vec![
        pair(heard(10, 20), None),
        pair(heard(20, 30), None),
        pair(heard(35, 40), Some("word")),
        pair(heard(40, 50), Some("next")),
    ];
    assert_eq!(line_own_start(&line), Some(35));
}

#[test]
fn a_line_starts_after_its_filler_when_no_pair_follows() {
    let line = vec![
        pair(heard(10, 20), None),
        pair(heard(20, 30), None),
        pair(None, Some("word")),
        pair(heard(40, 50), Some("next")),
    ];
    assert_eq!(line_own_start(&line), Some(30));
    assert_eq!(line_own_start(&vec![pair(heard(10, 20), None)]), Some(20));
}

#[test]
fn a_line_without_leading_source_has_no_start_of_its_own() {
    let line = vec![pair(None, Some("word")), pair(heard(40, 50), Some("next"))];
    assert_eq!(line_own_start(&line), None);
    assert_eq!(line_own_start(&vec![]), None);
}

#[test]
fn a_line_ends_with_its_last_paired_word() {
    let line = vec![
        pair(heard(0, 10), Some("word")),
        pair(None, Some(".")),
        pair(None, Some("\n")),
    ];
    assert_eq!(line_own_end(&line), Some(10));
}

#[test]
fn trailing_noise_is_cut_off() {
    let line = vec![
        pair(heard(0, 10), Some("word")),
        pair(None, Some(".")),
        pair(heard(10, 30), None),
        pair(heard(30, 40), Some("\n")),
    ];
    assert_eq!(line_own_end(&line), Some(10));
    let unpaired = vec![
        pair(None, Some("word")),
        pair(heard(10, 30), None),
        pair(heard(30, 40), Some("\n")),
    ];
    assert_eq!(line_own_end(&unpaired), Some(10));
}

#[test]
fn a_line_without_trailing_source_has_no_end_of_its_own() {
    let line = vec![pair(heard(0, 10), Some("word")), pair(None, Some("more"))];
    assert_eq!(line_own_end(&line), None);
    assert_eq!(line_own_end(&vec![pair(None, Some("."))]), None);
    assert_eq!(line_own_end(&vec![]), None);
}

#[test]
fn a_paired_word_with_punctuation_in_it_counts_as_noise() {
    let line = vec![pair(heard(0, 10), Some("one")), pair(heard(12, 20), Some("two."))];
    assert_eq!(line_own_end(&line), Some(10));
    let only = vec![pair(heard(12, 20), Some("two."))];
    assert_eq!(line_own_end(&only), Some(12));
}

#[test]
fn first_and_last_source_times_are_found() {
    let line = vec![
        pair(None, Some("a")),
        pair(heard(1, 2), None),
        pair(heard(3, 4), Some("b")),
        pair(None, Some("c")),
    ];
    assert_eq!(line_first_source_start(&line), Some(1));
    assert_eq!(line_last_source_end(&line), Some(4));
    let none = vec![pair(None, Some("a"))];
    assert_eq!(line_first_source_start(&none), None);
    assert_eq!(line_last_source_end(&none), None);
}

#[test]
fn the_text_of_a_line_is_trimmed() {
    let line = vec![
        pair(heard(0, 1), Some(" Hello")),
        pair(heard(0, 1), None),
        pair(None, Some(" ")),
        pair(heard(1, 2), Some("world")),
        pair(None, Some(" \n")),
    ];
    assert_eq!(line_text(&line), "Hello world");
    assert_eq!(line_text(&vec![pair(None, Some("\u{3000}\n"))]), "");
}

#[test]
fn lines_borrow_times_from_their_neighbours() {
    let lines = vec![
        vec![pair(heard(5, 10), Some("one")), pair(heard(10, 12), Some("\n"))],
        vec![pair(None, Some("two")), pair(None, Some("\n"))],
        vec![pair(heard(30, 40), None), pair(heard(40, 50), Some("three")), pair(None, Some("\n"))],
    ];
    let timing = resolve_lines(&lines, Some(60));
    assert_eq!(
        timing.cues,
        vec![cue(5, 10, "one"), cue(12, 30, "two"), cue(40, 50, "three")]
    );
    assert!(timing.dropped.is_empty());
}

#[test]
fn the_first_line_starts_at_zero_and_the_last_ends_with_the_audio() {
    let lines = vec![vec![pair(None, Some("only")), pair(None, Some("\n"))]];
    let timing = resolve_lines(&lines, Some(77));
    assert_eq!(timing.cues, vec![cue(0, 77, "only")]);
    let timing = resolve_lines(&lines, None);
    assert_eq!(timing.cues, vec![]);
    assert_eq!(timing.dropped, vec![dropped(0, "only")]);
}

#[test]
fn no_cue_starts_before_the_one_before_it_ends() {
    let lines = vec![
        vec![pair(heard(0, 50), Some("one")), pair(None, Some("\n"))],
        vec![pair(heard(20, 60), Some("two")), pair(None, Some("\n"))],
        vec![pair(heard(10, 30), Some("three")), pair(None, Some("\n"))],
    ];
    let timing = resolve_lines(&lines, Some(100));
    assert_eq!(
        timing.cues,
        vec![cue(0, 50, "one"), cue(50, 60, "two"), cue(60, 30, "three")]
    );
    for k in 1..timing.cues.len() {
        assert!(timing.cues[k - 1].end <= timing.cues[k].start);
    }
}

#[test]
fn lines_that_cannot_be_timed_are_dropped_and_reported() {
    let lines = vec![
        vec![pair(heard(0, 10), Some("Hello")), pair(heard(10, 10), Some("\n"))],
        vec![pair(None, Some("...")), pair(None, Some("\n"))],
        vec![pair(None, Some("???")), pair(None, Some("\n"))],
    ];
    let timing = resolve_lines(&lines, None);
    assert_eq!(timing.cues, vec![cue(0, 10, "Hello")]);
    assert_eq!(timing.dropped, vec![dropped(1, "..."), dropped(2, "???")]);
}

#[test]
fn lines_without_reference_get_no_cue_and_are_not_reported() {
    let lines = vec![
        vec![pair(heard(0, 10), Some("a\n"))],
        vec![pair(heard(10, 20), None)],
        vec![pair(None, Some("b"))],
    ];
    let timing = resolve_lines(&lines, Some(40));
    assert_eq!(timing.cues, vec![cue(0, 0, "a"), cue(20, 40, "b")]);
    assert!(timing.dropped.is_empty());
    assert_eq!(resolve_lines(&vec![], Some(1)).cues, vec![]);
}

#[test]
fn misheard_words_are_timed() {
    let source = vec![
        SourceToken { text: "Hllo".to_string(), start: 0, end: 100 },
        SourceToken { text: "wrld".to_string(), start: 100, end: 200 },
    ];
    let timing = time_lines(&source, &strings(&["Hello", " ", "world", "\n"]), Some(200));
    assert_eq!(timing.cues, vec![cue(0, 200, "Hello world")]);
    assert!(timing.dropped.is_empty());
    let timing = time_lines(&source, &strings(&["Hello", "world", "\n"]), Some(200));
    assert_eq!(timing.cues.len(), 1);
    assert_eq!((timing.cues[0].start, timing.cues[0].end), (0, 200));
}

#[test]
fn punctuation_that_nothing_was_heard_for_is_dropped() {
    let source = vec![
        SourceToken { text: "Hello".to_string(), start: 0, end: 90 },
        SourceToken { text: "\n".to_string(), start: 90, end: 90 },
    ];
    let reference = strings(&["Hello", "\n", "...", "\n", "???", "\n"]);
    let timing = time_lines(&source, &reference, Some(90));
    assert_eq!(timing.cues, vec![cue(0, 90, "Hello")]);
    assert_eq!(timing.dropped, vec![dropped(1, "..."), dropped(2, "???")]);
}

#[test]
fn one_line_is_timed_after_another() {
    let lines = vec![
        vec![pair(heard(5, 10), Some("one")), pair(None, Some("\n"))],
        vec![pair(heard(3, 8), None)],
        vec![pair(None, Some("..."))],
    ];
    match transcript_align::timing::line_cue(&lines, 0, None, Some(7)) {
        transcript_align::timing::LineOutcome::Timed(line) => assert_eq!(line, cue(7, 10, "one")),
        _ => panic!("the first line has a cue"),
    }
    assert!(matches!(
        transcript_align::timing::line_cue(&lines, 1, None, None),
        transcript_align::timing::LineOutcome::Nothing
    ));
    match transcript_align::timing::line_cue(&lines, 2, None, None) {
        transcript_align::timing::LineOutcome::Dropped(text) => assert_eq!(text, "..."),
        _ => panic!("the last line has no end"),
    }
    assert_eq!(transcript_align::timing::line_start(&lines, 2, Some(2)), Some(8));
    assert_eq!(transcript_align::timing::line_end(&lines, 0, None), Some(10));
    assert_eq!(transcript_align::timing::line_end(&lines, 2, Some(99)), Some(99));
}
