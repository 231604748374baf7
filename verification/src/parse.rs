//! Raw per-chunk recognizer output to recognized segments.
//!
//! A chunk is given as a `RawChunk`: the entries of its `segments` list
//! and of its `words` list, each with the fields the parsers read. A field
//! that is missing, or of the wrong JSON type, is `None`.
use vstd::prelude::*;
use vstd::string::*;
use crate::schema::{
    lemma_segs_view_push, lemma_words_view_push, segs_view, words_view, AsrSegment, SegmentView,
    WordTimestamp, WordView,
};
use crate::text::{trim, trim_str};
use crate::whisper_recognizer::one_word_segments;

verus! {

/// One entry of a raw chunk's `segments` or `words` list. `text` is the
/// entry's `text` (in `segments`) or `word` (in `words`) string; `start`
/// and `end` are its times in microseconds from the start of the chunk.
#[derive(Debug, Clone, PartialEq, Eq)]
pub struct RawChunkEntry {
    pub text: Option<String>,
    pub start: Option<i64>,
    pub end: Option<i64>,
}

/// One chunk of raw recognizer output: its `segments` and `words` lists,
/// `None` when the key is missing or not a list.
#[derive(Debug, Clone, PartialEq, Eq)]
pub struct RawChunk {
    pub segments: Option<Vec<RawChunkEntry>>,
    pub words: Option<Vec<RawChunkEntry>>,
}

/// A raw entry as a mathematical value.
pub struct EntryView {
    pub text: Option<Seq<char>>,
    pub start: Option<int>,
    pub end: Option<int>,
}

impl View for RawChunkEntry {
    type V = EntryView;

    open spec fn view(&self) -> EntryView {
        EntryView {
            text: match self.text {
                Some(t) => Some(t@),
                None => None,
            },
            start: match self.start {
                Some(v) => Some(v as int),
                None => None,
            },
            end: match self.end {
                Some(v) => Some(v as int),
                None => None,
            },
        }
    }
}

pub open spec fn entries_view(es: Seq<RawChunkEntry>) -> Seq<EntryView> {
    es.map_values(|e: RawChunkEntry| e@)
}

pub open spec fn opt_entries_view(es: Option<Vec<RawChunkEntry>>) -> Seq<EntryView> {
    match es {
        Some(v) => entries_view(v@),
        None => Seq::empty(),
    }
}

/// An entry is usable when its trimmed text is non-empty and both times
/// are present.
pub open spec fn usable(e: EntryView) -> bool {
    &&& e.text is Some
    &&& trim(e.text->0).len() > 0
    &&& e.start is Some
    &&& e.end is Some
}

/// Whether `chunk_start` plus any time of the chunk fits in an `i64`.
pub open spec fn times_fit(es: Seq<EntryView>, chunk_start: int) -> bool {
    forall|k: int|
        0 <= k < es.len() ==> {
            &&& ((#[trigger] es[k]).start is Some ==> i64::MIN <= chunk_start + es[k].start->0
                <= i64::MAX)
            &&& (es[k].end is Some ==> i64::MIN <= chunk_start + es[k].end->0 <= i64::MAX)
        }
}

/// Whether every absolute time computed from the chunk's `segments` list
/// fits in an `i64`.
pub open spec fn segment_times_fit_spec(chunk: RawChunk, chunk_start: int) -> bool {
    times_fit(opt_entries_view(chunk.segments), chunk_start)
}

/// Whether every absolute time the parsers compute for `chunk` fits in an
/// `i64`.
pub open spec fn chunk_times_fit_spec(chunk: RawChunk, chunk_start: int) -> bool {
    &&& segment_times_fit_spec(chunk, chunk_start)
    &&& times_fit(opt_entries_view(chunk.words), chunk_start)
}

/// The one-word segment of a usable word-level entry.
pub open spec fn whisper_segment_of(e: EntryView, chunk_start: int) -> SegmentView {
    let text = trim(e.text->0);
    let start = chunk_start + e.start->0;
    let end = chunk_start + e.end->0;
    SegmentView {
        text,
        start,
        end,
        words: seq![WordView { word: text, start, end }],
        chunk_start: None,
        speaker: None,
    }
}

/// One segment per usable entry, in order.
pub open spec fn whisper_segments(es: Seq<EntryView>, chunk_start: int) -> Seq<SegmentView>
    decreases es.len(),
{
    if es.len() == 0 {
        Seq::empty()
    } else if usable(es.last()) {
        whisper_segments(es.drop_last(), chunk_start).push(whisper_segment_of(es.last(), chunk_start))
    } else {
        whisper_segments(es.drop_last(), chunk_start)
    }
}

/// What `parse_whisper_raw_chunk` returns.
pub open spec fn parse_whisper(chunk: RawChunk, chunk_start: int) -> Seq<SegmentView> {
    whisper_segments(opt_entries_view(chunk.segments), chunk_start)
}

/// The word of a usable word entry.
pub open spec fn word_of_entry(e: EntryView, chunk_start: int) -> WordView {
    WordView {
        word: trim(e.text->0),
        start: chunk_start + e.start->0,
        end: chunk_start + e.end->0,
    }
}

/// The usable words lying within `[start - 10 ms, end + 10 ms]`, in order.
pub open spec fn words_within(ws: Seq<EntryView>, start: int, end: int, chunk_start: int) -> Seq<
    WordView,
>
    decreases ws.len(),
{
    if ws.len() == 0 {
        Seq::empty()
    } else {
        let w = ws.last();
        let rest = words_within(ws.drop_last(), start, end, chunk_start);
        if usable(w) && w.start->0 >= start - 10_000 && w.end->0 <= end + 10_000 {
            rest.push(word_of_entry(w, chunk_start))
        } else {
            rest
        }
    }
}

/// The sentence segment of a usable sentence entry, with its words.
pub open spec fn parakeet_segment_of(e: EntryView, words: Seq<EntryView>, chunk_start: int) -> SegmentView {
    SegmentView {
        text: trim(e.text->0),
        start: chunk_start + e.start->0,
        end: chunk_start + e.end->0,
        words: words_within(words, e.start->0, e.end->0, chunk_start),
        chunk_start: None,
        speaker: None,
    }
}

pub open spec fn parakeet_segments(es: Seq<EntryView>, words: Seq<EntryView>, chunk_start: int) -> Seq<
    SegmentView,
>
    decreases es.len(),
{
    if es.len() == 0 {
        Seq::empty()
    } else if usable(es.last()) {
        parakeet_segments(es.drop_last(), words, chunk_start).push(
            parakeet_segment_of(es.last(), words, chunk_start),
        )
    } else {
        parakeet_segments(es.drop_last(), words, chunk_start)
    }
}

/// What `parse_parakeet_raw_chunk` returns.
pub open spec fn parse_parakeet(chunk: RawChunk, chunk_start: int) -> Seq<SegmentView> {
    match chunk.segments {
        None => Seq::empty(),
        Some(es) => parakeet_segments(entries_view(es@), opt_entries_view(chunk.words), chunk_start),
    }
}

fn entries_fit(es: &Vec<RawChunkEntry>, chunk_start: i64) -> (b: bool)
    ensures
        b == times_fit(entries_view(es@), chunk_start as int),
{
    let ghost ev = entries_view(es@);
    let mut i: usize = 0;
    while i < es.len()
        invariant
            i <= es.len(),
            ev == entries_view(es@),
            forall|k: int|
                0 <= k < i ==> {
                    &&& ((#[trigger] ev[k]).start is Some ==> i64::MIN <= chunk_start
                        + ev[k].start->0 <= i64::MAX)
                    &&& (ev[k].end is Some ==> i64::MIN <= chunk_start + ev[k].end->0
                        <= i64::MAX)
                },
        decreases es.len() - i,
    {
        assert(ev[i as int] == es@[i as int]@);
        match es[i].start {
            Some(s) => {
                let t: i128 = (chunk_start as i128) + (s as i128);
                if t < i64::MIN as i128 || t > i64::MAX as i128 {
                    return false;
                }
            },
            None => {},
        }
        match es[i].end {
            Some(s) => {
                let t: i128 = (chunk_start as i128) + (s as i128);
                if t < i64::MIN as i128 || t > i64::MAX as i128 {
                    return false;
                }
            },
            None => {},
        }
        i = i + 1;
    }
    true
}

/// Whether every absolute time computed from the chunk's `segments` list
/// fits in an `i64` (all that the word-level parser reads).
pub fn segment_times_fit(chunk: &RawChunk, chunk_start: i64) -> (b: bool)
    ensures
        b == segment_times_fit_spec(*chunk, chunk_start as int),
{
    match &chunk.segments {
        Some(es) => entries_fit(es, chunk_start),
        None => true,
    }
}

/// Whether every absolute time the parsers would compute for `chunk`
/// fits in an `i64`.
pub fn chunk_times_fit(chunk: &RawChunk, chunk_start: i64) -> (b: bool)
    ensures
        b == chunk_times_fit_spec(*chunk, chunk_start as int),
{
    let a = match &chunk.segments {
        Some(es) => entries_fit(es, chunk_start),
        None => true,
    };
    let b = match &chunk.words {
        Some(es) => entries_fit(es, chunk_start),
        None => true,
    };
    a && b
}

/// The trimmed text and times of an entry when it is usable.
fn usable_fields(e: &RawChunkEntry) -> (r: Option<(String, i64, i64)>)
    ensures
        r is Some <==> usable(e@),
        r matches Some((t, s, en)) ==> t@ == trim(e@.text->0) && s == e.start->0 && en
            == e.end->0,
{
    match (&e.text, e.start, e.end) {
        (Some(t), Some(s), Some(en)) => {
            let trimmed = trim_str(t.as_str());
            if trimmed.unicode_len() > 0 {
                Some((trimmed, s, en))
            } else {
                None
            }
        },
        _ => None,
    }
}

/// Word-level raw chunk to one single-word segment per usable entry.
pub fn parse_whisper_raw_chunk(chunk: &RawChunk, chunk_start: i64) -> (r: Vec<AsrSegment>)
    requires
        segment_times_fit_spec(*chunk, chunk_start as int),
    ensures
        segs_view(r@) == parse_whisper(*chunk, chunk_start as int),
{
    let mut out: Vec<AsrSegment> = Vec::new();
    let es = match &chunk.segments {
        Some(es) => es,
        None => {
            return out;
        },
    };
    let ghost ev = entries_view(es@);
    let mut i: usize = 0;
    while i < es.len()
        invariant
            i <= es.len(),
            ev == entries_view(es@),
            chunk.segments == Some(*es),
            times_fit(ev, chunk_start as int),
            segs_view(out@) == whisper_segments(ev.take(i as int), chunk_start as int),
        decreases es.len() - i,
    {
        assert(ev.take(i + 1).drop_last() =~= ev.take(i as int));
        assert(ev.take(i + 1).last() == es@[i as int]@);
        assert(ev[i as int] == es@[i as int]@);
        match usable_fields(&es[i]) {
            Some((text, s, en)) => {
                let start = chunk_start + s;
                let end = chunk_start + en;
                let w = WordTimestamp { word: text.clone(), start, end };
                let mut words: Vec<WordTimestamp> = Vec::new();
                words.push(w);
                let seg = AsrSegment { text, start, end, words, chunk_start: None, speaker: None };
                assert(words_view(seg.words@) =~= seq![w@]);
                proof {
                    lemma_segs_view_push(out@, seg);
                }
                out.push(seg);
            },
            None => {},
        }
        i = i + 1;
    }
    assert(ev.take(es.len() as int) =~= ev);
    out
}

/// The usable words of `ws` within `[start - 10 ms, end + 10 ms]`.
fn collect_words_within(ws: &Vec<RawChunkEntry>, start: i64, end: i64, chunk_start: i64) -> (r: Vec<
    WordTimestamp,
>)
    requires
        times_fit(entries_view(ws@), chunk_start as int),
    ensures
        words_view(r@) == words_within(entries_view(ws@), start as int, end as int, chunk_start as int),
{
    let ghost ev = entries_view(ws@);
    let mut out: Vec<WordTimestamp> = Vec::new();
    let mut i: usize = 0;
    while i < ws.len()
        invariant
            i <= ws.len(),
            ev == entries_view(ws@),
            times_fit(ev, chunk_start as int),
            words_view(out@) == words_within(ev.take(i as int), start as int, end as int, chunk_start as int),
        decreases ws.len() - i,
    {
        assert(ev.take(i + 1).drop_last() =~= ev.take(i as int));
        assert(ev.take(i + 1).last() == ws@[i as int]@);
        assert(ev[i as int] == ws@[i as int]@);
        match usable_fields(&ws[i]) {
            Some((text, s, en)) => {
                let lo: i128 = (start as i128) - 10_000;
                let hi: i128 = (end as i128) + 10_000;
                if (s as i128) >= lo && (en as i128) <= hi {
                    let w = WordTimestamp { word: text, start: chunk_start + s, end: chunk_start + en };
                    proof {
                        lemma_words_view_push(out@, w);
                    }
                    out.push(w);
                }
            },
            None => {},
        }
        i = i + 1;
    }
    assert(ev.take(ws.len() as int) =~= ev);
    out
}

/// Sentence-level raw chunk to one segment per usable sentence, each with
/// the usable words whose span lies within the sentence's, give or take
/// 10 ms.
pub fn parse_parakeet_raw_chunk(chunk: &RawChunk, chunk_start: i64) -> (r: Vec<AsrSegment>)
    requires
        chunk_times_fit_spec(*chunk, chunk_start as int),
    ensures
        segs_view(r@) == parse_parakeet(*chunk, chunk_start as int),
{
    let mut out: Vec<AsrSegment> = Vec::new();
    let es = match &chunk.segments {
        Some(es) => es,
        None => {
            return out;
        },
    };
    let empty: Vec<RawChunkEntry> = Vec::new();
    let all_words = match &chunk.words {
        Some(ws) => ws,
        None => &empty,
    };
    assert(entries_view(empty@) =~= Seq::<EntryView>::empty());
    let ghost ev = entries_view(es@);
    let ghost wv = entries_view(all_words@);
    assert(wv == opt_entries_view(chunk.words));
    let mut i: usize = 0;
    while i < es.len()
        invariant
            i <= es.len(),
            ev == entries_view(es@),
            wv == entries_view(all_words@),
            times_fit(ev, chunk_start as int),
            times_fit(wv, chunk_start as int),
            segs_view(out@) == parakeet_segments(ev.take(i as int), wv, chunk_start as int),
        decreases es.len() - i,
    {
        assert(ev.take(i + 1).drop_last() =~= ev.take(i as int));
        assert(ev.take(i + 1).last() == es@[i as int]@);
        assert(ev[i as int] == es@[i as int]@);
        match usable_fields(&es[i]) {
            Some((text, s, en)) => {
                let words = collect_words_within(all_words, s, en, chunk_start);
                let seg = AsrSegment {
                    text,
                    start: chunk_start + s,
                    end: chunk_start + en,
                    words,
                    chunk_start: None,
                    speaker: None,
                };
                proof {
                    lemma_segs_view_push(out@, seg);
                }
                out.push(seg);
            },
            None => {},
        }
        i = i + 1;
    }
    assert(ev.take(es.len() as int) =~= ev);
    out
}

/// Every segment parsed from a word-level chunk is one non-blank word.
pub proof fn law_parse_whisper_one_word(es: Seq<EntryView>, chunk_start: int)
    ensures
        one_word_segments(whisper_segments(es, chunk_start)),
    decreases es.len(),
{
    if es.len() > 0 {
        law_parse_whisper_one_word(es.drop_last(), chunk_start);
        let r0 = whisper_segments(es.drop_last(), chunk_start);
        let r = whisper_segments(es, chunk_start);
        if usable(es.last()) {
            assert forall|k: int| 0 <= k < r.len() implies {
                &&& (#[trigger] r[k]).text.len() > 0
                &&& r[k].words == seq![WordView { word: r[k].text, start: r[k].start, end: r[k].end }]
            } by {
                if k < r0.len() {
                    assert(r[k] == r0[k]);
                }
            }
        }
    }
}

/// Each word lies within its sentence's span, give or take 10 ms.
pub open spec fn words_near_span(seg: SegmentView) -> bool {
    forall|k: int|
        0 <= k < seg.words.len() ==> (#[trigger] seg.words[k]).start >= seg.start - 10_000
            && seg.words[k].end <= seg.end + 10_000
}

proof fn lemma_words_within_near(ws: Seq<EntryView>, start: int, end: int, cs: int)
    ensures
        forall|k: int|
            0 <= k < words_within(ws, start, end, cs).len() ==> (#[trigger] words_within(ws, start, end, cs)[k]).start
                >= cs + start - 10_000 && words_within(ws, start, end, cs)[k].end <= cs + end + 10_000,
    decreases ws.len(),
{
    if ws.len() > 0 {
        lemma_words_within_near(ws.drop_last(), start, end, cs);
        let r0 = words_within(ws.drop_last(), start, end, cs);
        let r = words_within(ws, start, end, cs);
        assert forall|k: int| 0 <= k < r.len() implies (#[trigger] r[k]).start >= cs + start - 10_000
            && r[k].end <= cs + end + 10_000 by {
            if k < r0.len() {
                assert(r[k] == r0[k]);
            }
        }
    }
}

/// Every segment parsed from a sentence-level chunk has non-empty text, and
/// all its words lie within its span, give or take 10 ms.
pub proof fn law_parse_parakeet(es: Seq<EntryView>, words: Seq<EntryView>, chunk_start: int)
    ensures
        forall|k: int|
            0 <= k < parakeet_segments(es, words, chunk_start).len() ==> (#[trigger] parakeet_segments(
                es,
                words,
                chunk_start,
            )[k]).text.len() > 0 && words_near_span(parakeet_segments(es, words, chunk_start)[k]),
    decreases es.len(),
{
    if es.len() > 0 {
        law_parse_parakeet(es.drop_last(), words, chunk_start);
        let r0 = parakeet_segments(es.drop_last(), words, chunk_start);
        let r = parakeet_segments(es, words, chunk_start);
        if usable(es.last()) {
            let e = es.last();
            lemma_words_within_near(words, e.start->0, e.end->0, chunk_start);
            assert forall|k: int| 0 <= k < r.len() implies (#[trigger] r[k]).text.len() > 0
                && words_near_span(r[k]) by {
                if k < r0.len() {
                    assert(r[k] == r0[k]);
                }
            }
        }
    }
}

} // verus!
