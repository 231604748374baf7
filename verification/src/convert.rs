//! Recognized segments to transcript segments and to the raw snapshot a
//! document keeps. Ids stay empty and indices zero: they are assigned
//! later, by whoever writes the document.
use vstd::prelude::*;
use vstd::string::*;
use crate::schema::{
    opt_text, segs_view, transcripts_view, AsrSegment, RawAsrOutput, RawAsrSegmentSnapshot,
    RawAsrWord, RawSnapshotView, SegmentView, TranscriptSegment, TranscriptSegmentView,
    TranscriptWord, TranscriptWordView, WordTimestamp, WordView,
};
use crate::text::{trim, trim_str};

verus! {

/// The transcript word of a recognized word.
pub open spec fn transcript_word_of(w: WordView) -> TranscriptWordView {
    TranscriptWordView { text: w.word, start_time: Some(w.start), end_time: Some(w.end) }
}

/// The words of a transcript segment: none when there are no words.
pub open spec fn transcript_words_of(ws: Seq<WordView>) -> Option<Seq<TranscriptWordView>> {
    if ws.len() == 0 {
        None
    } else {
        Some(ws.map_values(|w: WordView| transcript_word_of(w)))
    }
}

/// The transcript segment of a recognized segment.
pub open spec fn transcript_of(seg: SegmentView, model: Option<Seq<char>>) -> TranscriptSegmentView {
    TranscriptSegmentView {
        id: Seq::empty(),
        index: 0,
        start_time: seg.start,
        end_time: seg.end,
        text: trim(seg.text),
        words: transcript_words_of(seg.words),
        speaker_name: seg.speaker,
        rating: None,
        timestamp: None,
        verified: Some(false),
        asr_model: model,
        notes: None,
    }
}

/// What `asr_segments_to_transcript_segments` returns: one transcript
/// segment per recognized segment whose trimmed text is not empty.
pub open spec fn to_transcripts(segs: Seq<SegmentView>, model: Option<Seq<char>>) -> Seq<
    TranscriptSegmentView,
>
    decreases segs.len(),
{
    if segs.len() == 0 {
        Seq::empty()
    } else if trim(segs.last().text).len() == 0 {
        to_transcripts(segs.drop_last(), model)
    } else {
        to_transcripts(segs.drop_last(), model).push(transcript_of(segs.last(), model))
    }
}

pub open spec fn opt_str_view(s: Option<&str>) -> Option<Seq<char>> {
    match s {
        Some(t) => Some(t@),
        None => None,
    }
}

fn transcript_words(ws: &Vec<WordTimestamp>) -> (r: Option<Vec<TranscriptWord>>)
    ensures
        match (r, transcript_words_of(ws@.map_values(|w: WordTimestamp| w@))) {
            (None, None) => true,
            (Some(v), Some(t)) => v@.map_values(|x: TranscriptWord| x@) == t,
            _ => false,
        },
{
    let ghost wv = ws@.map_values(|w: WordTimestamp| w@);
    if ws.len() == 0 {
        return None;
    }
    let mut out: Vec<TranscriptWord> = Vec::new();
    let mut i: usize = 0;
    while i < ws.len()
        invariant
            i <= ws.len(),
            wv == ws@.map_values(|w: WordTimestamp| w@),
            out@.len() == i,
            out@.map_values(|x: TranscriptWord| x@) == wv.take(i as int).map_values(
                |w: WordView| transcript_word_of(w),
            ),
        decreases ws.len() - i,
    {
        let ghost old_out = out@;
        out.push(
            TranscriptWord {
                text: ws[i].word.clone(),
                start_time: Some(ws[i].start),
                end_time: Some(ws[i].end),
            },
        );
        assert forall|k: int| 0 <= k < i + 1 implies out@[k]@ == transcript_word_of(wv[k]) by {
            if k < i {
                assert(out@[k] == old_out[k]);
                assert(old_out.map_values(|x: TranscriptWord| x@)[k] == wv.take(i as int).map_values(
                    |w: WordView| transcript_word_of(w),
                )[k]);
            }
        }
        assert(out@.map_values(|x: TranscriptWord| x@) =~= wv.take(i + 1).map_values(
            |w: WordView| transcript_word_of(w),
        ));
        i = i + 1;
    }
    assert(wv.take(ws.len() as int) =~= wv);
    Some(out)
}

/// Recognized segments to transcript segments, dropping those whose
/// trimmed text is empty.
pub fn asr_segments_to_transcript_segments(segments: Vec<AsrSegment>, asr_model: Option<&str>) -> (r:
    Vec<TranscriptSegment>)
    ensures
        transcripts_view(r@) == to_transcripts(segs_view(segments@), opt_str_view(asr_model)),
{
    let ghost input = segments@;
    let ghost model = opt_str_view(asr_model);
    let mut out: Vec<TranscriptSegment> = Vec::new();
    for seg in it: segments
        invariant
            it.seq() == input,
            model == opt_str_view(asr_model),
            transcripts_view(out@) == to_transcripts(segs_view(input.take(it.index() as int)), model),
    {
        let ghost idx = it.index() as int;
        assert(segs_view(input.take(idx + 1)).drop_last() =~= segs_view(input.take(idx)));
        assert(segs_view(input.take(idx + 1)).last() == seg@);
        let trimmed = trim_str(seg.text.as_str());
        if trimmed.unicode_len() > 0 {
            let words = transcript_words(&seg.words);
            let model_string = match asr_model {
                Some(m) => Some(String::from_str(m)),
                None => None,
            };
            let t = TranscriptSegment {
                id: String::new(),
                index: 0,
                start_time: seg.start,
                end_time: seg.end,
                text: trimmed,
                words,
                speaker_name: seg.speaker,
                rating: None,
                timestamp: None,
                verified: Some(false),
                asr_model: model_string,
                notes: None,
            };
            assert(t@ == transcript_of(seg@, model));
            let ghost old_out = out@;
            out.push(t);
            assert(transcripts_view(out@) =~= transcripts_view(old_out).push(t@));
        }
    }
    assert(input.take(input.len() as int) =~= input);
    out
}

/// The raw snapshot of a recognized segment.
pub open spec fn snapshot_of(seg: SegmentView) -> RawSnapshotView {
    RawSnapshotView {
        text: seg.text,
        start: seg.start,
        end: seg.end,
        chunk_start: seg.chunk_start,
        words: seg.words,
    }
}

fn snapshot(seg: &AsrSegment) -> (r: RawAsrSegmentSnapshot)
    ensures
        r@ == snapshot_of(seg@),
{
    let mut words: Vec<RawAsrWord> = Vec::new();
    let mut i: usize = 0;
    while i < seg.words.len()
        invariant
            i <= seg.words.len(),
            words@.len() == i,
            words@.map_values(|w: RawAsrWord| w@) == seg@.words.take(i as int),
        decreases seg.words.len() - i,
    {
        let ghost old_words = words@;
        words.push(
            RawAsrWord {
                word: seg.words[i].word.clone(),
                start: seg.words[i].start,
                end: seg.words[i].end,
            },
        );
        assert forall|k: int| 0 <= k < i + 1 implies words@[k]@ == seg@.words[k] by {
            if k < i {
                assert(words@[k] == old_words[k]);
                assert(old_words.map_values(|w: RawAsrWord| w@)[k] == seg@.words.take(i as int)[k]);
            }
        }
        assert(words@.map_values(|w: RawAsrWord| w@) =~= seg@.words.take(i + 1));
        i = i + 1;
    }
    assert(seg@.words.take(seg.words.len() as int) =~= seg@.words);
    RawAsrSegmentSnapshot {
        text: seg.text.clone(),
        start: seg.start,
        end: seg.end,
        chunk_start: seg.chunk_start,
        words,
    }
}

/// The raw snapshot of a list of recognized segments, format version 1.
pub fn raw_asr_segments_to_raw_asr_output(segments: &Vec<AsrSegment>) -> (r: RawAsrOutput)
    ensures
        r.version == 1,
        r.segments@.map_values(|s: RawAsrSegmentSnapshot| s@) == segs_view(segments@).map_values(
            |s: SegmentView| snapshot_of(s),
        ),
{
    let mut out: Vec<RawAsrSegmentSnapshot> = Vec::new();
    let mut i: usize = 0;
    while i < segments.len()
        invariant
            i <= segments.len(),
            out@.len() == i,
            out@.map_values(|s: RawAsrSegmentSnapshot| s@) == segs_view(segments@.take(
                i as int,
            )).map_values(|s: SegmentView| snapshot_of(s)),
        decreases segments.len() - i,
    {
        let ghost old_out = out@;
        out.push(snapshot(&segments[i]));
        assert forall|k: int| 0 <= k < i + 1 implies out@[k]@ == snapshot_of(segments@[k]@) by {
            if k < i {
                assert(out@[k] == old_out[k]);
                assert(old_out.map_values(|s: RawAsrSegmentSnapshot| s@)[k] == segs_view(
                    segments@.take(i as int),
                ).map_values(|s: SegmentView| snapshot_of(s))[k]);
            }
        }
        assert(out@.map_values(|s: RawAsrSegmentSnapshot| s@) =~= segs_view(
            segments@.take(i + 1),
        ).map_values(|s: SegmentView| snapshot_of(s)));
        i = i + 1;
    }
    assert(segments@.take(segments.len() as int) =~= segments@);
    RawAsrOutput { version: crate::schema::raw_asr_version_default(), segments: out }
}

/// Every transcript segment has non-empty, trimmed text and is marked
/// unverified, and there are never more of them than recognized segments.
pub proof fn law_transcripts(segs: Seq<SegmentView>, model: Option<Seq<char>>)
    ensures
        to_transcripts(segs, model).len() <= segs.len(),
        forall|k: int|
            0 <= k < to_transcripts(segs, model).len() ==> (#[trigger] to_transcripts(segs, model)[k]).text.len()
                > 0 && to_transcripts(segs, model)[k].verified == Some(false),
    decreases segs.len(),
{
    if segs.len() > 0 {
        law_transcripts(segs.drop_last(), model);
        let r0 = to_transcripts(segs.drop_last(), model);
        let r = to_transcripts(segs, model);
        assert forall|k: int| 0 <= k < r.len() implies (#[trigger] r[k]).text.len() > 0 && r[k].verified
            == Some(false) by {
            if k < r0.len() {
                assert(r[k] == r0[k]);
            }
        }
    }
}


/// The recognized segments that become transcript segments.
pub open spec fn captioned(segs: Seq<SegmentView>) -> Seq<SegmentView> {
    segs.filter(|s: SegmentView| trim(s.text).len() > 0)
}

/// Each recognized segment with text becomes, in order, one transcript
/// segment over the same time span (so `end_time - start_time` is its
/// duration), with the trimmed text, the same speaker, the model name,
/// and one transcript word per recognized word with that word's times;
/// segments whose text is blank are left out.
pub proof fn law_transcript_spans(segs: Seq<SegmentView>, model: Option<Seq<char>>)
    ensures
        to_transcripts(segs, model).len() == captioned(segs).len(),
        forall|k: int|
            #![trigger to_transcripts(segs, model)[k]]
            0 <= k < captioned(segs).len() ==> {
                let t = to_transcripts(segs, model)[k];
                let g = captioned(segs)[k];
                &&& t.start_time == g.start
                &&& t.end_time == g.end
                &&& t.end_time - t.start_time == g.end - g.start
                &&& t.text == trim(g.text)
                &&& t.speaker_name == g.speaker
                &&& t.asr_model == model
                &&& (t.words is None <==> g.words.len() == 0)
                &&& (t.words matches Some(tw) ==> tw.len() == g.words.len() && forall|j: int|
                    0 <= j < tw.len() ==> (#[trigger] tw[j]).text == g.words[j].word
                        && tw[j].start_time == Some(g.words[j].start) && tw[j].end_time == Some(
                        g.words[j].end,
                    ))
            },
    decreases segs.len(),
{
    reveal(Seq::filter);
    if segs.len() > 0 {
        law_transcript_spans(segs.drop_last(), model);
        let r0 = to_transcripts(segs.drop_last(), model);
        let c0 = captioned(segs.drop_last());
        let r = to_transcripts(segs, model);
        let c = captioned(segs);
        assert forall|k: int| #![trigger r[k]] 0 <= k < c.len() implies {
            let t = r[k];
            let g = c[k];
            &&& t.start_time == g.start
            &&& t.end_time == g.end
            &&& t.end_time - t.start_time == g.end - g.start
            &&& t.text == trim(g.text)
            &&& t.speaker_name == g.speaker
            &&& t.asr_model == model
            &&& (t.words is None <==> g.words.len() == 0)
            &&& (t.words matches Some(tw) ==> tw.len() == g.words.len() && forall|j: int|
                0 <= j < tw.len() ==> (#[trigger] tw[j]).text == g.words[j].word
                    && tw[j].start_time == Some(g.words[j].start) && tw[j].end_time == Some(
                    g.words[j].end,
                ))
        } by {
            if k < c0.len() {
                assert(r[k] == r0[k]);
                assert(c[k] == c0[k]);
            } else {
                assert(r[k] == transcript_of(segs.last(), model));
                assert(c[k] == segs.last());
            }
        }
    }
}

} // verus!
