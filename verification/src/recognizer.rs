//! Choice of recognizer family from a model id, and the segment a
//! transducer run without sentence grouping yields.
use vstd::prelude::*;
use vstd::string::*;
use crate::schema::{words_view, AsrSegment, SegmentView, WordTimestamp};
use crate::text::{ascii_lower, ascii_lower_seq, chars_of, contains_ascii_lowercased, contains_seq};

verus! {

/// A model id routes to the word-level (Whisper) recognizer when it
/// contains `whisper` in any ASCII letter case.
pub open spec fn is_whisper_model_spec(model_id: Seq<char>) -> bool {
    contains_seq(ascii_lower_seq(model_id), seq!['w', 'h', 'i', 's', 'p', 'e', 'r'])
}

/// Whether `model_id` names a Whisper model: `whisper` occurs in it,
/// ignoring ASCII case, so both `openai/whisper-tiny` and a local
/// `/tmp/ggml-whisper-large-v3.bin` qualify.
pub fn is_whisper_model(model_id: &str) -> (b: bool)
    ensures
        b == is_whisper_model_spec(model_id@),
{
    let hay = chars_of(model_id);
    let needle = chars_of("whisper");
    proof {
        reveal_strlit("whisper");
        assert(needle@ =~= seq!['w', 'h', 'i', 's', 'p', 'e', 'r']);
    }
    contains_ascii_lowercased(&hay, &needle)
}

/// The match ignores case: an id and its ASCII-lowercased form route the
/// same way.
pub proof fn law_whisper_model_ignores_case(model_id: Seq<char>)
    ensures
        is_whisper_model_spec(ascii_lower_seq(model_id)) == is_whisper_model_spec(model_id),
{
    assert forall|k: int| 0 <= k < model_id.len() implies #[trigger] ascii_lower(ascii_lower(model_id[k]))
        == ascii_lower(model_id[k]) by {
        let c = model_id[k];
        if 'A' <= c && c <= 'Z' {
            let d = ((c as u32) + 32) as char;
            assert((d as u32) == (c as u32) + 32);
        }
    }
    assert(ascii_lower_seq(ascii_lower_seq(model_id)) =~= ascii_lower_seq(model_id));
}

/// The single segment made of all words of one recognizer run: its span is
/// from the first word's start to the last word's end (zero for no words),
/// and its chunk starts at zero.
pub open spec fn single_segment_spec(text: Seq<char>, words: Seq<WordTimestamp>) -> SegmentView {
    SegmentView {
        text,
        start: if words.len() > 0 {
            words[0].start as int
        } else {
            0
        },
        end: if words.len() > 0 {
            words.last().end as int
        } else {
            0
        },
        words: words_view(words),
        chunk_start: Some(0),
        speaker: None,
    }
}

/// Roll the words of one recognizer run up into a single segment.
pub fn single_segment_from_words(text: String, words: Vec<WordTimestamp>) -> (r: AsrSegment)
    ensures
        r@ == single_segment_spec(text@, words@),
{
    let (start, end) = if words.len() > 0 {
        (words[0].start, words[words.len() - 1].end)
    } else {
        (0, 0)
    };
    AsrSegment { text, start, end, words, chunk_start: Some(0), speaker: None }
}

} // verus!
