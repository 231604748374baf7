use caption_core::recognizer::{is_whisper_model, single_segment_from_words};
use caption_core::schema::WordTimestamp;
use caption_core::whisper_recognizer::{resolve_whisper_model_path, whisper_sample_rate_ok, whisper_times_fit, whisper_tokens_to_segments, WhisperModelSource, WhisperToken};

fn tok(text: &str, t0: i64, t1: i64) -> WhisperToken {
    WhisperToken { text: text.to_string(), t0, t1 }
}

#[test]
fn whisper_tokens_grouped_into_words() {
    let segs = vec![
        vec![tok("[_BEG_]", 0, 0), tok(" Hello", 0, 50), tok(" wor", 60, 80), tok("ld", 80, 100), tok("<|endoftext|>", 100, 100)],
        vec![tok(" again", 200, 250)],
    ];
    assert!(whisper_times_fit(&segs, 5_000_000));
    let r = whisper_tokens_to_segments(&segs, 5_000_000);
    let texts: Vec<&str> = r.iter().map(|s| s.text.as_str()).collect();
    assert_eq!(texts, vec!["Hello", "world", "again"]);
    assert_eq!((r[0].start, r[0].end), (5_000_000, 5_500_000));
    assert_eq!((r[1].start, r[1].end), (5_600_000, 6_000_000));
    assert_eq!(r[1].chunk_start, Some(5_000_000));
    assert_eq!(r[2].words.len(), 1);
    assert_eq!(r[2].words[0].word, "again");
}

#[test]
fn whisper_blank_words_dropped() {
    let segs = vec![vec![tok(" ", 0, 10), tok(" x", 10, 20)]];
    let r = whisper_tokens_to_segments(&segs, 0);
    assert_eq!(r.len(), 1);
    assert_eq!(r[0].text, "x");
    assert!(!whisper_times_fit(&vec![vec![tok("a", i64::MAX, 0)]], 0));
}

#[test]
fn model_family_from_id() {
    assert!(is_whisper_model("openai/whisper-tiny"));
    assert!(is_whisper_model("/tmp/ggml-WHISPER-large-v3.bin"));
    assert!(!is_whisper_model("istupakov/parakeet-tdt-0.6b-v3-onnx"));
    assert!(!is_whisper_model("whispe"));
}

#[test]
fn whisper_model_sources() {
    assert_eq!(resolve_whisper_model_path("/m/x.bin", true), WhisperModelSource::LocalFile("/m/x.bin".to_string()));
    assert_eq!(
        resolve_whisper_model_path("openai/whisper-tiny", false),
        WhisperModelSource::Download { repo: "ggerganov/whisper.cpp".to_string(), filename: "ggml-tiny.bin".to_string(), fallback: false }
    );
    assert_eq!(
        resolve_whisper_model_path("someone/model", false),
        WhisperModelSource::Download { repo: "someone/model".to_string(), filename: "ggml-model.bin".to_string(), fallback: true }
    );
}

#[test]
fn single_segment_spans_words() {
    let words = vec![
        WordTimestamp { word: "a".to_string(), start: 10, end: 20 },
        WordTimestamp { word: "b".to_string(), start: 30, end: 40 },
    ];
    let s = single_segment_from_words("a b".to_string(), words);
    assert_eq!((s.start, s.end, s.chunk_start), (10, 40, Some(0)));
    let e = single_segment_from_words(String::new(), vec![]);
    assert_eq!((e.start, e.end), (0, 0));
}

#[test]
fn whisper_needs_16_khz() {
    assert!(whisper_sample_rate_ok(16_000));
    assert!(!whisper_sample_rate_ok(44_100));
    assert!(!whisper_sample_rate_ok(8_000));
}
