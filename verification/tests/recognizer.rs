use transcript_align::repair::{is_special, mend_tokens, Piece, RawToken};
use transcript_align::vad::{speech_sections, SampleRate, VadParams};

fn raw(text: &[u8], t0: i64, t1: i64) -> RawToken {
    RawToken { text: text.to_vec(), t0, t1 }
}

fn piece(text: &str, t0: i64, t1: i64, first: usize, count: usize) -> Piece {
    Piece { text: text.to_string(), t0, t1, first, count }
}

#[test]
fn sample_rates_are_in_hertz() {
    assert_eq!(SampleRate::Hz8000.hz(), 8000);
    assert_eq!(SampleRate::Hz16000.hz(), 16000);
}

#[test]
fn padding_must_fit_the_shortest_silence() {
    assert_eq!(VadParams::new(2, 2, 1440), None);
    assert_eq!(VadParams::new(5, 2, 1440), None);
    assert_eq!(
        VadParams::new(3, 5, 1440),
        Some(VadParams { min_silence_chunks: 3, min_trim_silence_chunks: 5, padding_samples: 1440 })
    );
    assert!(VadParams::new(0, 0, 479).is_some());
    assert!(VadParams::new(0, 0, 480).is_none());
}

#[test]
fn speech_is_cut_at_long_silence() {
    let params = VadParams::new(2, 2, 100).unwrap();
    let silent = vec![true, false, false, true, true, false, true, true, true];
    assert_eq!(
        speech_sections(&params, &silent, 9 * 480),
        Some(vec![(0, 1540), (2300, 2980)])
    );
}

#[test]
fn short_silence_does_not_cut() {
    let params = VadParams::new(3, 3, 100).unwrap();
    let silent = vec![false, true, true, false, true, true];
    assert_eq!(speech_sections(&params, &silent, 6 * 480), Some(vec![(0, 2880)]));
}

#[test]
fn leading_silence_is_cut_off_but_for_the_padding() {
    let params = VadParams::new(2, 2, 100).unwrap();
    assert_eq!(
        speech_sections(&params, &vec![true, true, false], 1440),
        Some(vec![(380, 1440)])
    );
    assert_eq!(speech_sections(&params, &vec![false, false], 900), Some(vec![(0, 900)]));
    assert_eq!(speech_sections(&params, &vec![], 0), Some(vec![(0, 0)]));
}

#[test]
fn silence_longer_than_the_recording_gives_nothing() {
    let trims = VadParams::new(1, 1, 0).unwrap();
    assert_eq!(speech_sections(&trims, &vec![true, true], 500), None);
    let keeps = VadParams::new(3, 3, 0).unwrap();
    assert_eq!(speech_sections(&keeps, &vec![true, true], 500), Some(vec![(480, 500)]));
}

#[test]
fn whole_tokens_are_taken_as_they_are() {
    let mended = mend_tokens(&vec![raw(b"a", 0, 1), raw("あ".as_bytes(), 1, 2), raw(b"", 2, 3)]);
    assert_eq!(
        mended.pieces,
        vec![piece("a", 0, 1, 0, 1), piece("あ", 1, 2, 1, 1), piece("", 2, 3, 2, 1)]
    );
    assert_eq!(mended.left_over, 0);
}

#[test]
fn cut_characters_are_put_together() {
    let tokens = vec![
        raw(b"a", 0, 1),
        raw(&[0xE3, 0x81], 1, 2),
        raw(&[0x82], 2, 3),
        raw(b"b", 3, 4),
        raw(&[0xE3], 4, 5),
        raw(b"", 5, 6),
        raw(&[0x81, 0x84, b'c'], 6, 7),
    ];
    let mended = mend_tokens(&tokens);
    assert_eq!(
        mended.pieces,
        vec![
            piece("a", 0, 1, 0, 1),
            piece("あ", 1, 2, 1, 2),
            piece("b", 3, 4, 3, 1),
            piece("いc", 4, 5, 4, 3),
        ]
    );
    assert_eq!(mended.left_over, 0);
}

#[test]
fn bytes_that_nothing_completes_are_counted() {
    let mended = mend_tokens(&vec![raw(b"a", 0, 1), raw(&[0xE3, 0x81], 1, 2), raw(b"b", 2, 3)]);
    assert_eq!(mended.pieces, vec![piece("a", 0, 1, 0, 1)]);
    assert_eq!(mended.left_over, 3);
    assert_eq!(mend_tokens(&vec![]).pieces, vec![]);
}

#[test]
fn markers_of_the_recognizer_are_told_from_text() {
    assert!(is_special("[_BEG_]"));
    assert!(is_special("[_TT_50]"));
    assert!(is_special("[_]"));
    assert!(!is_special("[x]"));
    assert!(!is_special("[_x"));
    assert!(!is_special(" [_x]"));
    assert!(!is_special(""));
}
