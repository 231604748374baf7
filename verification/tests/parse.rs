use caption_core::parse::{chunk_times_fit, parse_parakeet_raw_chunk, parse_whisper_raw_chunk, segment_times_fit, RawChunk, RawChunkEntry};

const S: i64 = 1_000_000;

fn e(text: Option<&str>, start: Option<i64>, end: Option<i64>) -> RawChunkEntry {
    RawChunkEntry { text: text.map(str::to_string), start, end }
}

#[test]
fn whisper_chunk_one_segment_per_usable_word() {
    let chunk = RawChunk {
        segments: Some(vec![
            e(Some(" Hello "), Some(0), Some(S / 2)),
            e(Some("   "), Some(S), Some(2 * S)),
            e(Some("lost"), None, Some(2 * S)),
            e(None, Some(0), Some(1)),
            e(Some("world"), Some(S), Some(2 * S)),
        ]),
        words: None,
    };
    assert!(chunk_times_fit(&chunk, 5 * S));
    let r = parse_whisper_raw_chunk(&chunk, 5 * S);
    assert_eq!(r.len(), 2);
    assert_eq!(r[0].text, "Hello");
    assert_eq!((r[0].start, r[0].end), (5 * S, 5 * S + S / 2));
    assert_eq!(r[0].words.len(), 1);
    assert_eq!(r[0].words[0].word, "Hello");
    assert_eq!(r[0].chunk_start, None);
    assert_eq!(r[1].text, "world");
}

#[test]
fn whisper_chunk_without_segments_is_empty() {
    let chunk = RawChunk { segments: None, words: None };
    assert!(parse_whisper_raw_chunk(&chunk, 0).is_empty());
    assert!(parse_parakeet_raw_chunk(&chunk, 0).is_empty());
}

#[test]
fn parakeet_chunk_matches_words_with_tolerance() {
    let chunk = RawChunk {
        segments: Some(vec![e(Some("Hi there."), Some(S), Some(2 * S)), e(Some(""), Some(0), Some(1))]),
        words: Some(vec![
            e(Some("Hi"), Some(S - 10_000), Some(S + S / 2)),
            e(Some("there."), Some(S + S / 2), Some(2 * S + 10_000)),
            e(Some("early"), Some(S - 10_001), Some(S)),
            e(Some("late"), Some(S), Some(2 * S + 10_001)),
            e(Some(" "), Some(S), Some(S)),
        ]),
    };
    let r = parse_parakeet_raw_chunk(&chunk, 10 * S);
    assert_eq!(r.len(), 1);
    assert_eq!(r[0].text, "Hi there.");
    assert_eq!((r[0].start, r[0].end), (11 * S, 12 * S));
    let words: Vec<&str> = r[0].words.iter().map(|w| w.word.as_str()).collect();
    assert_eq!(words, vec!["Hi", "there."]);
    assert_eq!(r[0].words[0].start, 11 * S - 10_000);
}

#[test]
fn chunk_times_fit_detects_overflow() {
    let chunk = RawChunk { segments: Some(vec![e(Some("x"), Some(i64::MAX), Some(i64::MAX))]), words: None };
    assert!(!chunk_times_fit(&chunk, 1));
    assert!(chunk_times_fit(&chunk, 0));
}

#[test]
fn word_level_parse_reads_only_segments() {
    let chunk = RawChunk {
        segments: Some(vec![e(Some(" hey "), Some(0), Some(S))]),
        words: Some(vec![e(Some("x"), Some(i64::MAX), Some(i64::MAX))]),
    };
    assert!(segment_times_fit(&chunk, 1));
    assert!(!chunk_times_fit(&chunk, 1));
    let r = parse_whisper_raw_chunk(&chunk, 1);
    assert_eq!(r.len(), 1);
    assert_eq!((r[0].text.as_str(), r[0].start, r[0].end), ("hey", 1, S + 1));
}
