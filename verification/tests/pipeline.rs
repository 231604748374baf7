use caption_core::convert::{asr_segments_to_transcript_segments, raw_asr_segments_to_raw_asr_output};
use caption_core::pipeline::{
    group_segments_by_gap, join_words, post_process_asr_segments, post_process_raw_asr_segments,
    resolve_overlap_conflicts, sort_segments_by_start, split_long_segments, split_segments_by_word_gap,
    zip_words_in_overlapping_segments,
};
use caption_core::schema::{AsrSegment, WordTimestamp};

const S: i64 = 1_000_000;

fn w(word: &str, start: i64, end: i64) -> WordTimestamp {
    WordTimestamp { word: word.to_string(), start, end }
}

fn seg(text: &str, start: i64, end: i64, words: Vec<WordTimestamp>, chunk_start: Option<i64>) -> AsrSegment {
    AsrSegment { text: text.to_string(), start, end, words, chunk_start, speaker: None }
}

fn single(word: &str, start: i64, end: i64) -> AsrSegment {
    seg(word, start, end, vec![w(word, start, end)], None)
}

fn texts(s: &[AsrSegment]) -> Vec<String> {
    s.iter().map(|x| x.text.clone()).collect()
}

#[test]
fn join_words_spaces_and_trims() {
    assert_eq!(join_words(&vec![w(" a", 0, 1), w("b ", 1, 2)]), "a b");
    assert_eq!(join_words(&vec![]), "");
    assert_eq!(join_words(&vec![w("x", 0, 1), w("", 1, 2), w("y", 2, 3)]), "x  y");
}

#[test]
fn sort_is_stable_by_start() {
    let s = vec![single("b", 5, 6), single("a1", 1, 2), single("c", 9, 9), single("a2", 1, 3)];
    assert_eq!(texts(&sort_segments_by_start(s)), vec!["a1", "a2", "b", "c"]);
}

#[test]
fn overlap_merge_keeps_disjoint_segments() {
    let s = vec![single("late", 5 * S, 6 * S), single("early", S, 2 * S), single("touch", 2 * S, 3 * S)];
    let r = resolve_overlap_conflicts(s, 10 * S, 5 * S);
    assert_eq!(texts(&r), vec!["early", "touch", "late"]);
}

#[test]
fn overlap_merge_cuts_at_chunk_overlap_middle() {
    let a = seg("a b c", 0, 12 * S, vec![w("a", 0, S), w("b", 9 * S, 10 * S), w("c", 10 * S + S / 2, 11 * S)], Some(0));
    let b = seg("b c d", 9 * S, 20 * S, vec![w("B", 9 * S + S / 5, 10 * S), w("C", 10 * S + S / 2, 11 * S), w("d", 15 * S, 16 * S)], Some(5 * S));
    // Cut at 5 s + 5 s / 2 = 7.5 s: "a" from the first chunk, the rest from the second.
    let r = resolve_overlap_conflicts(vec![b.clone(), a.clone()], 10 * S, 5 * S);
    assert_eq!(r.len(), 1);
    assert_eq!(r[0].text, "a B C d");
    assert_eq!((r[0].start, r[0].end), (0, 20 * S));
    assert_eq!(r[0].chunk_start, None);
    // The merge does not depend on which segment comes first.
    let z = zip_words_in_overlapping_segments(b, a, 10 * S, 5 * S);
    assert_eq!(z.text, "a B C d");
}

#[test]
fn overlap_merge_without_chunk_starts_cuts_at_segment_overlap_middle() {
    let a = seg("x y", 0, 4 * S, vec![w("x", 0, S), w("y", 3 * S, 4 * S)], None);
    let b = seg("Y z", 2 * S, 6 * S, vec![w("Y", 3 * S, 4 * S), w("z", 5 * S, 6 * S)], None);
    // Cut at (2 s + 4 s) / 2 = 3 s: "x" kept from the first, "Y z" from the second.
    let z = zip_words_in_overlapping_segments(a, b, 10 * S, 5 * S);
    assert_eq!(z.text, "x Y z");
    assert_eq!((z.start, z.end), (0, 6 * S));
}

#[test]
fn group_by_gap_rejoins_words() {
    let s = vec![single("world", 600_000, S), single("Hello", 0, 500_000), single("Again", 2 * S, 2 * S + 500_000)];
    let r = group_segments_by_gap(s, 200_000);
    assert_eq!(texts(&r), vec!["Hello world", "Again"]);
    assert_eq!((r[0].start, r[0].end), (0, S));
    assert_eq!(r[0].words.len(), 2);
    // consecutive groups are more than the threshold apart
    assert!(r[1].start - r[0].end > 200_000);
    assert!(group_segments_by_gap(vec![], 200_000).is_empty());
}

#[test]
fn group_by_gap_boundary_is_inclusive() {
    let s = vec![single("a", 0, S), single("b", S + 200_000, 2 * S)];
    assert_eq!(texts(&group_segments_by_gap(s, 200_000)), vec!["a b"]);
}

#[test]
fn split_by_word_gap_splits_on_large_gaps() {
    let s = seg("a b c", 0, 6 * S, vec![w("a", 0, S), w("b", S + S / 10, 2 * S), w("c", 5 * S, 6 * S)], Some(0));
    let r = split_segments_by_word_gap(vec![s], 2 * S);
    assert_eq!(texts(&r), vec!["a b", "c"]);
    assert_eq!((r[0].start, r[0].end, r[1].start, r[1].end), (0, 2 * S, 5 * S, 6 * S));
    assert_eq!(r[0].chunk_start, None);
}

#[test]
fn split_by_word_gap_keeps_unsplit_segments_whole() {
    let mut s = seg("Keep  me", 0, 3 * S, vec![w("Keep", 0, S), w("me", 2 * S, 3 * S)], Some(7));
    s.speaker = Some("alice".to_string());
    let single_word = seg("one", 0, S, vec![w("one", 0, S)], Some(3));
    let r = split_segments_by_word_gap(vec![s.clone(), single_word.clone()], 2 * S);
    assert_eq!(r, vec![s, single_word]);
}

#[test]
fn split_long_segments_greedy() {
    let s = seg(
        "w1 w2 w3 w4 w5",
        0,
        25 * S,
        vec![w("w1", 0, 4 * S), w("w2", 4 * S, 8 * S), w("w3", 8 * S, 12 * S), w("w4", 12 * S, 16 * S), w("w5", 20 * S, 25 * S)],
        None,
    );
    let r = split_long_segments(vec![s], 10 * S);
    assert_eq!(texts(&r), vec!["w1 w2", "w3 w4", "w5"]);
    assert_eq!((r[0].start, r[0].end), (0, 8 * S));
    assert_eq!((r[1].start, r[1].end), (8 * S, 16 * S));
    assert_eq!((r[2].start, r[2].end), (20 * S, 25 * S));
    for x in &r {
        assert!(x.end - x.start <= 10 * S || x.words.len() <= 1);
    }
}

#[test]
fn split_long_keeps_short_or_single_word() {
    let long_single = seg("long", 0, 30 * S, vec![w("long", 0, 30 * S)], Some(1));
    let short = seg("a b", 0, 5 * S, vec![w("a", 0, S), w("b", 4 * S, 5 * S)], Some(2));
    let r = split_long_segments(vec![long_single.clone(), short.clone()], 10 * S);
    assert_eq!(r, vec![long_single, short]);
}

#[test]
fn post_process_sentence_path() {
    let s1 = seg("Hello there.", 0, 2 * S, vec![w("Hello", 0, S), w("there.", S, 2 * S)], Some(0));
    let s2 = seg("Far away.", 6 * S, 8 * S, vec![w("Far", 6 * S, 7 * S), w("away.", 7 * S, 8 * S)], Some(0));
    let raw = post_process_raw_asr_segments(vec![s2.clone(), s1.clone()], 10 * S, 5 * S, 2 * S, 10 * S, false);
    assert_eq!(texts(&raw), vec!["Hello there.", "Far away."]);
    let t = post_process_asr_segments(vec![s1, s2], 10 * S, 5 * S, 2 * S, 10 * S, false);
    assert_eq!(t.len(), 2);
    assert_eq!(t[0].text, "Hello there.");
    assert_eq!(t[0].id, "");
    assert_eq!(t[0].index, 0);
    assert_eq!(t[0].verified, Some(false));
    assert_eq!(t[0].asr_model, None);
    assert_eq!(t[0].words.as_ref().unwrap().len(), 2);
    assert_eq!(t[1].start_time, 6 * S);
}

#[test]
fn post_process_word_path() {
    let s = vec![single("Hi", 0, 300_000), single("you", 400_000, 700_000), single("Next", 3 * S, 3 * S + 300_000)];
    let raw = post_process_raw_asr_segments(s, 10 * S, 5 * S, 200_000, 10 * S, true);
    assert_eq!(texts(&raw), vec!["Hi you", "Next"]);
}

#[test]
fn convert_drops_blank_and_sets_fields() {
    let mut a = seg("  Hello  ", S, 2 * S, vec![w("Hello", S, 2 * S)], Some(0));
    a.speaker = Some("bob".to_string());
    let blank = seg("   ", 0, S, vec![], None);
    let no_words = seg("x", 3 * S, 4 * S, vec![], None);
    let t = asr_segments_to_transcript_segments(vec![a, blank, no_words], Some("parakeet"));
    assert_eq!(t.len(), 2);
    assert_eq!(t[0].text, "Hello");
    assert_eq!(t[0].speaker_name.as_deref(), Some("bob"));
    assert_eq!(t[0].asr_model.as_deref(), Some("parakeet"));
    let ws = t[0].words.as_ref().unwrap();
    assert_eq!((ws[0].text.as_str(), ws[0].start_time, ws[0].end_time), ("Hello", Some(S), Some(2 * S)));
    assert_eq!(t[1].words, None);
    assert_eq!((t[1].rating, t[1].timestamp.clone(), t[1].notes.clone()), (None, None, None));
}

#[test]
fn raw_output_snapshot() {
    let a = seg("a", 0, S, vec![w("a", 0, S)], Some(5));
    let out = raw_asr_segments_to_raw_asr_output(&vec![a]);
    assert_eq!(out.version, 1);
    assert_eq!(out.segments.len(), 1);
    assert_eq!(out.segments[0].chunk_start, Some(5));
    assert_eq!(out.segments[0].words[0].word, "a");
}
