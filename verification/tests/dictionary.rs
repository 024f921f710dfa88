use std::ops::Range;

use transcript_align::sync::{align_transcription, time_transcript, SyncError};
use transcript_align::timing::TimedLine;
use transcript_align::tokenize::{choose_tokenizer, TokenizerChoice};
use transcript_align::transcript::{stamp_bytes, StampError, Token};

fn small_dictionary() -> vibrato::Tokenizer {
    let lexicon_csv = "自然,0,0,1,sizen
言語,0,0,4,gengo
処理,0,0,3,shori
自然言語,0,0,6,sizengengo
言語処理,0,0,5,gengoshori";
    let matrix_def = "1 1\n0 0 0";
    let char_def = "DEFAULT 0 1 0";
    let unk_def = "DEFAULT,0,0,100,*";
    let dictionary = vibrato::SystemDictionaryBuilder::from_readers(
        lexicon_csv.as_bytes(),
        matrix_def.as_bytes(),
        char_def.as_bytes(),
        unk_def.as_bytes(),
    )
    .unwrap();
    vibrato::Tokenizer::new(dictionary)
}

fn words(dictionary: &vibrato::Tokenizer, text: &str) -> Vec<Range<usize>> {
    let mut worker = dictionary.new_worker();
    worker.reset_sentence(text);
    worker.tokenize();
    worker.token_iter().map(|x| x.range_byte()).collect()
}

fn spoken(text: &str, start: i64, end: i64) -> Token {
    Token { start, end, text: text.to_string() }
}

#[test]
fn japanese_is_cut_with_a_dictionary_where_there_is_one() {
    assert_eq!(choose_tokenizer("ja", true), TokenizerChoice::Dictionary);
    assert_eq!(choose_tokenizer("ja", false), TokenizerChoice::WhitespaceForWantOfDictionary);
    assert_eq!(choose_tokenizer("en", true), TokenizerChoice::Whitespace);
    assert_eq!(choose_tokenizer("en", false), TokenizerChoice::Whitespace);
    assert_eq!(choose_tokenizer("jap", true), TokenizerChoice::Whitespace);
    assert_eq!(choose_tokenizer("", false), TokenizerChoice::Whitespace);
}

#[test]
fn a_transcript_is_timed_from_its_segments() {
    let segments = vec![vec![spoken("Hllo", 0, 100), spoken(" wrld", 100, 200)]];
    let timing = align_transcription(&segments, "Hello world\n").unwrap();
    assert_eq!(
        timing.cues,
        vec![TimedLine { start: 0, end: 200, text: "Hello world".to_string() }]
    );
    assert!(timing.dropped.is_empty());
}

#[test]
fn a_japanese_transcript_is_timed_by_the_words_of_a_dictionary() {
    let dictionary = small_dictionary();
    let reference = "自然言語処理\n";
    let stamped = stamp_bytes(&vec![vec![spoken("自然", 0, 60), spoken("言語処理", 60, 180)]]).unwrap();
    let source_ranges = words(&dictionary, &stamped.sentence);
    assert_eq!(source_ranges, vec![0..6, 6..18, 18..19]);
    let timing =
        time_transcript(&stamped, &source_ranges, reference, &words(&dictionary, reference)).unwrap();
    assert_eq!(
        timing.cues,
        vec![TimedLine { start: 0, end: 180, text: "自然言語処理".to_string() }]
    );
    let unlike = stamp_bytes(&vec![vec![spoken("処理", 0, 60), spoken("自然", 60, 180)]]).unwrap();
    let timing = time_transcript(
        &unlike,
        &words(&dictionary, &unlike.sentence),
        reference,
        &words(&dictionary, reference),
    )
    .unwrap();
    assert_eq!(
        timing.cues,
        vec![TimedLine { start: 60, end: 180, text: "自然言語処理".to_string() }]
    );
}

#[test]
fn ranges_of_another_text_are_turned_down() {
    let dictionary = small_dictionary();
    let stamped = stamp_bytes(&vec![vec![spoken("自然", 0, 60)]]).unwrap();
    let long = words(&dictionary, "自然言語処理");
    assert_eq!(
        time_transcript(&stamped, &long, "自然", &words(&dictionary, "自然")),
        Err(SyncError::SourceRange)
    );
    assert_eq!(
        time_transcript(&stamped, &words(&dictionary, &stamped.sentence), "自然", &long),
        Err(SyncError::ReferenceRange)
    );
}

#[test]
fn a_transcript_that_cannot_be_stamped_is_not_cut() {
    let segments = vec![vec![spoken("", 0, 100)]];
    assert_eq!(align_transcription(&segments, "x"), Err(StampError::EmptyToken));
}

#[test]
fn whitespace_always_cuts_what_can_be_timed() {
    let segments = vec![
        vec![spoken(" \u{3000}あ", 5, 6), spoken("\n\n", 6, 7), spoken("é\t", 7, 90)],
        vec![],
        vec![spoken("x", 90, 91)],
    ];
    for reference in ["", "\n", " \n é\u{a0}x\r\n\n", "あ é\nx", "   "] {
        assert!(align_transcription(&segments, reference).is_ok());
    }
    assert!(align_transcription(&vec![], "a\nb\n").is_ok());
}
